//! Text, character by character.
use vstd::prelude::*;

verus! {

/// `std::str::from_utf8`: the text that bytes spell, if they are UTF-8.
#[verifier::external_body]
fn utf8_text(b: &[u8]) -> (r: Option<&str>)
    ensures
        match r {
            Some(text) => vstd::utf8::valid_utf8(b@) && text@ == vstd::utf8::decode_utf8(b@),
            None => !vstd::utf8::valid_utf8(b@),
        },
{
    std::str::from_utf8(b).ok()
}

/// The characters of UTF-8 text.
pub fn characters(b: &[u8]) -> (r: Option<Vec<char>>)
    ensures
        match r {
            Some(text) => vstd::utf8::valid_utf8(b@) && text@ == vstd::utf8::decode_utf8(b@),
            None => !vstd::utf8::valid_utf8(b@),
        },
{
    let text: &str = match utf8_text(b) {
        Some(text) => text,
        None => {
            return None;
        },
    };
    Some(spelled_out(text))
}

/// White space, as Unicode has it.
pub open spec fn is_space(c: char) -> bool {
    let v = c as u32;
    9 <= v <= 13 || v == 32 || v == 0x85 || v == 0xa0 || v == 0x1680 || 0x2000 <= v <= 0x200a || v
        == 0x2028 || v == 0x2029 || v == 0x202f || v == 0x205f || v == 0x3000
}

fn space(c: char) -> (r: bool)
    ensures
        r == is_space(c),
{
    let v: u32 = c as u32;
    (9 <= v && v <= 13) || v == 32 || v == 0x85 || v == 0xa0 || v == 0x1680 || (0x2000 <= v && v
        <= 0x200a) || v == 0x2028 || v == 0x2029 || v == 0x202f || v == 0x205f || v == 0x3000
}

/// The first position from `i` on that is no space, or the end.
pub open spec fn word_start(s: Seq<char>, i: int) -> int
    decreases s.len() - i,
{
    if 0 <= i < s.len() && is_space(s[i]) {
        word_start(s, i + 1)
    } else {
        i
    }
}

/// The first position from `i` on that is a space, or the end.
pub open spec fn word_end(s: Seq<char>, i: int) -> int
    decreases s.len() - i,
{
    if 0 <= i < s.len() && !is_space(s[i]) {
        word_end(s, i + 1)
    } else {
        i
    }
}

/// The words from `i` on.
pub open spec fn words(s: Seq<char>, i: int) -> Seq<Seq<char>>
    decreases s.len() - i,
    when 0 <= i
    via words_decreases
{
    let a = word_start(s, i);
    if a >= s.len() {
        Seq::empty()
    } else {
        let e = word_end(s, a);
        seq![s.subrange(a, e)] + words(s, e)
    }
}

#[via_fn]
proof fn words_decreases(s: Seq<char>, i: int) {
    lemma_word_bounds(s, i);
    let a = word_start(s, i);
    if a < s.len() {
        lemma_word_bounds(s, a + 1);
    }
}

pub proof fn lemma_word_bounds(s: Seq<char>, i: int)
    requires
        0 <= i,
    ensures
        i <= word_start(s, i),
        i <= word_end(s, i),
        i <= s.len() ==> word_start(s, i) <= s.len() && word_end(s, i) <= s.len(),
        word_start(s, i) < s.len() ==> !is_space(s[word_start(s, i)]),
    decreases s.len() - i,
{
    if i < s.len() {
        lemma_word_bounds(s, i + 1);
    }
}

/// The characters from `a` to `e`.
pub fn part(s: &Vec<char>, a: usize, e: usize) -> (r: Vec<char>)
    requires
        a <= e <= s@.len(),
    ensures
        r@ == s@.subrange(a as int, e as int),
{
    let mut r: Vec<char> = Vec::new();
    let mut i: usize = a;
    while i < e
        invariant
            a <= i <= e <= s@.len(),
            r@ == s@.subrange(a as int, i as int),
        decreases e - i,
    {
        r.push(s[i]);
        i = i + 1;
        assert(r@ =~= s@.subrange(a as int, i as int));
    }
    r
}

/// What lists of characters are.
pub open spec fn texts(list: Seq<Vec<char>>) -> Seq<Seq<char>> {
    Seq::new(list.len(), |i: int| list[i]@)
}

/// Splits text into words.
pub fn split_words(s: &Vec<char>) -> (r: Vec<Vec<char>>)
    ensures
        texts(r@) == words(s@, 0),
{
    let mut r: Vec<Vec<char>> = Vec::new();
    let mut i: usize = 0;
    assert(texts(r@) + words(s@, 0) =~= words(s@, 0));
    loop
        invariant_except_break
            i <= s@.len(),
            words(s@, 0) == texts(r@) + words(s@, i as int),
        ensures
            words(s@, 0) == texts(r@),
        decreases s@.len() - i,
    {
        proof {
            lemma_word_bounds(s@, i as int);
        }
        let ghost from = i as int;
        while i < s.len() && space(s[i])
            invariant
                i <= s@.len(),
                word_start(s@, from) == word_start(s@, i as int),
            decreases s@.len() - i,
        {
            i = i + 1;
        }
        if i >= s.len() {
            assert(texts(r@) + Seq::<Seq<char>>::empty() =~= texts(r@));
            break;
        }
        let a: usize = i;
        while i < s.len() && !space(s[i])
            invariant
                a <= i <= s@.len(),
                word_end(s@, a as int) == word_end(s@, i as int),
            decreases s@.len() - i,
        {
            i = i + 1;
        }
        proof {
            lemma_word_bounds(s@, a as int + 1);
        }
        let ghost before = texts(r@);
        r.push(part(s, a, i));
        proof {
            let word = s@.subrange(a as int, i as int);
            assert(texts(r@) =~= before.push(word));
            assert(before + (seq![word] + words(s@, i as int)) =~= texts(r@) + words(s@, i as int));
        }
    }
    r
}

/// Text starts with other text.
pub open spec fn begins(s: Seq<char>, lead: Seq<char>) -> bool {
    lead.len() <= s.len() && s.take(lead.len() as int) == lead
}

/// The characters of text.
pub fn spelled_out(text: &str) -> (r: Vec<char>)
    ensures
        r@ == text@,
{
    let mut list: Vec<char> = Vec::new();
    for c in iter: text.chars()
        invariant
            list@ == iter.seq().take(iter.index() as int),
    {
        list.push(c);
        assert(list@ =~= iter.seq().take(iter.index() + 1));
    }
    proof {
        broadcast use vstd::string::axiom_spec_iter;

        assert(list@ =~= text@);
    }
    list
}

/// Whether text starts with a word.
pub fn starts_with(s: &Vec<char>, word: &str) -> (r: bool)
    ensures
        r == begins(s@, word@),
{
    let lead: Vec<char> = spelled_out(word);
    if s.len() < lead.len() {
        return false;
    }
    let mut i: usize = 0;
    while i < lead.len()
        invariant
            lead@ == word@,
            i <= lead@.len() <= s@.len(),
            forall|j: int| 0 <= j < i ==> s@[j] == lead@[j],
        decreases lead@.len() - i,
    {
        if s[i] != lead[i] {
            assert(s@.take(lead@.len() as int)[i as int] != lead@[i as int]);
            return false;
        }
        i = i + 1;
    }
    assert(s@.take(lead@.len() as int) =~= lead@);
    true
}

/// Whether text is a word.
pub fn is_word(s: &Vec<char>, word: &str) -> (r: bool)
    ensures
        r == (s@ == word@),
{
    let other: Vec<char> = spelled_out(word);
    if s.len() != other.len() {
        return false;
    }
    let mut i: usize = 0;
    while i < other.len()
        invariant
            other@ == word@,
            i <= other@.len(),
            other@.len() == s@.len(),
            forall|j: int| 0 <= j < i ==> s@[j] == other@[j],
        decreases other@.len() - i,
    {
        if s[i] != other[i] {
            assert(s@[i as int] != word@[i as int]);
            return false;
        }
        i = i + 1;
    }
    assert(s@ =~= other@);
    true
}

pub open spec fn is_digit(c: char) -> bool {
    '0' <= c <= '9'
}

/// The number that digits spell.
pub open spec fn spelled(s: Seq<char>) -> int
    decreases s.len(),
{
    if s.len() == 0 {
        0
    } else {
        10 * spelled(s.drop_last()) + (s.last() as int - '0' as int)
    }
}

/// Digits and nothing else.
pub open spec fn all_digits(s: Seq<char>) -> bool {
    forall|i: int| 0 <= i < s.len() ==> is_digit(#[trigger] s[i])
}

/// The digits of a number that may have a plus sign.
pub open spec fn unsigned(s: Seq<char>) -> Seq<char> {
    if s.len() > 0 && s[0] == '+' {
        s.skip(1)
    } else {
        s
    }
}

/// A decimal number of 32 bits, if text is one.
pub open spec fn number(s: Seq<char>) -> Option<u32> {
    let digits = unsigned(s);
    if digits.len() > 0 && all_digits(digits) && spelled(digits) <= u32::MAX {
        Some(spelled(digits) as u32)
    } else {
        None
    }
}

proof fn lemma_spelled_grows(s: Seq<char>, k: int)
    requires
        0 <= k <= s.len(),
        all_digits(s),
    ensures
        0 <= spelled(s.take(k)) <= spelled(s),
    decreases s.len(),
{
    if k == s.len() {
        assert(s.take(k) =~= s);
        if k > 0 {
            let rest = s.drop_last();
            assert forall|i: int| 0 <= i < rest.len() implies is_digit(#[trigger] rest[i]) by {
                assert(is_digit(s[i]));
            }
            assert(is_digit(s[k - 1]));
            lemma_spelled_grows(rest, 0);
        }
    } else {
        let rest = s.drop_last();
        assert forall|i: int| 0 <= i < rest.len() implies is_digit(#[trigger] rest[i]) by {
            assert(is_digit(s[i]));
        }
        assert(is_digit(s[s.len() - 1]));
        assert(s.take(k) =~= rest.take(k));
        lemma_spelled_grows(rest, k);
    }
}

/// Reads the decimal number from `from` on.
pub fn parse_number(s: &Vec<char>) -> (r: Option<u32>)
    ensures
        r == number(s@),
{
    let from: usize = if s.len() > 0 && s[0] == '+' {
        1
    } else {
        0
    };
    let ghost digits = unsigned(s@);
    assert(digits =~= s@.skip(from as int));
    if s.len() == from {
        return None;
    }
    let mut v: u32 = 0;
    let mut i: usize = from;
    assert(digits.take(0) =~= Seq::<char>::empty());
    while i < s.len()
        invariant
            from <= i <= s@.len(),
            digits == s@.skip(from as int),
            digits == unsigned(s@),
            forall|j: int| 0 <= j < i - from ==> is_digit(#[trigger] digits[j]),
            v == spelled(digits.take(i - from)),
        decreases s@.len() - i,
    {
        let c: char = s[i];
        assert(digits[i - from] == c);
        if !('0' <= c && c <= '9') {
            return None;
        }
        let d: u32 = c as u32 - '0' as u32;
        proof {
            let k = i - from;
            assert(digits.take(k + 1).drop_last() =~= digits.take(k));
            assert(spelled(digits.take(k + 1)) == 10 * v + d);
            if all_digits(digits) {
                lemma_spelled_grows(digits, k + 1);
            }
        }
        if v > 429_496_729 || (v == 429_496_729 && d > 5) {
            return None;
        }
        v = 10 * v + d;
        i = i + 1;
    }
    assert(digits.take(digits.len() as int) =~= digits);
    Some(v)
}

} // verus!
