//! Characters and text: UTF-8 output, Unicode whitespace and the splitting of a
//! line into whitespace-separated words.
use vstd::prelude::*;
use vstd::utf8::*;

verus! {

/// Unicode `White_Space`, as `char::is_whitespace` decides it: U+0009..=U+000D,
/// U+0020, U+0085, U+00A0, U+1680, U+2000..=U+200A, U+2028, U+2029, U+202F,
/// U+205F and U+3000.
pub open spec fn is_whitespace(c: char) -> bool {
    let v = c as u32;
    ||| 0x09 <= v <= 0x0d
    ||| v == 0x20
    ||| v == 0x85
    ||| v == 0xa0
    ||| v == 0x1680
    ||| 0x2000 <= v <= 0x200a
    ||| v == 0x2028
    ||| v == 0x2029
    ||| v == 0x202f
    ||| v == 0x205f
    ||| v == 0x3000
}

/// Number of characters at the front of `s` before its first whitespace
/// character (all of `s` when it holds none).
pub open spec fn word_len(s: Seq<char>) -> nat
    decreases s.len(),
{
    if s.len() == 0 || is_whitespace(s[0]) {
        0
    } else {
        1 + word_len(s.drop_first())
    }
}

pub proof fn lemma_word_len_bound(s: Seq<char>)
    ensures
        word_len(s) <= s.len(),
        s.len() > 0 && !is_whitespace(s[0]) ==> word_len(s) >= 1,
    decreases s.len(),
{
    if s.len() > 0 && !is_whitespace(s[0]) {
        lemma_word_len_bound(s.drop_first());
    }
}

#[via_fn]
proof fn split_whitespace_decreases(s: Seq<char>) {
    lemma_word_len_bound(s);
}

/// The words of `s`: its maximal runs of non-whitespace characters, in order.
/// This is what `str::split_whitespace` yields.
pub open spec fn split_whitespace(s: Seq<char>) -> Seq<Seq<char>>
    decreases s.len(),
    via split_whitespace_decreases
{
    if s.len() == 0 {
        seq![]
    } else if is_whitespace(s[0]) {
        split_whitespace(s.drop_first())
    } else {
        seq![s.take(word_len(s) as int)] + split_whitespace(s.skip(word_len(s) as int))
    }
}

/// True when `s` holds no whitespace character.
pub open spec fn no_whitespace(s: Seq<char>) -> bool {
    forall|i: int| 0 <= i < s.len() ==> !is_whitespace(#[trigger] s[i])
}

/// True when every character of `s` is whitespace.
pub open spec fn all_whitespace(s: Seq<char>) -> bool {
    forall|i: int| 0 <= i < s.len() ==> is_whitespace(#[trigger] s[i])
}

/// A word followed by a whitespace character: `w + [c] + rest` splits into `w`
/// followed by the words of `rest`.
pub proof fn lemma_split_word_then_space(w: Seq<char>, c: char, rest: Seq<char>)
    requires
        w.len() > 0,
        no_whitespace(w),
        is_whitespace(c),
    ensures
        split_whitespace(w + seq![c] + rest) == seq![w] + split_whitespace(rest),
{
    let s = w + seq![c] + rest;
    lemma_word_len_of_word(w, seq![c] + rest);
    assert(s == w + (seq![c] + rest));
    assert(s[0] == w[0]);
    assert(!is_whitespace(s[0]));
    lemma_split_leading_space(c, rest);
    assert(s.take(w.len() as int) == w);
    assert(s.skip(w.len() as int) == seq![c] + rest);
    assert((seq![c] + rest).drop_first() == rest);
}

/// The first word of `w + rest` is `w` when `w` has no whitespace and `rest`
/// is empty or starts with whitespace.
pub proof fn lemma_word_len_of_word(w: Seq<char>, rest: Seq<char>)
    requires
        no_whitespace(w),
        rest.len() == 0 || is_whitespace(rest[0]),
    ensures
        word_len(w + rest) == w.len(),
    decreases w.len(),
{
    if w.len() > 0 {
        assert((w + rest).drop_first() == w.drop_first() + rest);
        lemma_word_len_of_word(w.drop_first(), rest);
    } else {
        assert(w + rest == rest);
    }
}

/// A text made of whitespace only has no words.
pub proof fn lemma_split_all_whitespace(s: Seq<char>)
    requires
        all_whitespace(s),
    ensures
        split_whitespace(s) == Seq::<Seq<char>>::empty(),
    decreases s.len(),
{
    if s.len() > 0 {
        lemma_split_all_whitespace(s.drop_first());
    }
}

/// Leading whitespace does not change the words.
pub proof fn lemma_split_leading_space(c: char, rest: Seq<char>)
    requires
        is_whitespace(c),
    ensures
        split_whitespace(seq![c] + rest) == split_whitespace(rest),
{
    assert((seq![c] + rest).drop_first() == rest);
}

/// UTF-8 encoding of a concatenation is the concatenation of the encodings.
pub proof fn lemma_encode_utf8_concat(a: Seq<char>, b: Seq<char>)
    ensures
        encode_utf8(a + b) == encode_utf8(a) + encode_utf8(b),
    decreases a.len(),
{
    if a.len() == 0 {
        assert(a + b == b);
    } else {
        assert((a + b).drop_first() == a.drop_first() + b);
        assert((a + b)[0] == a[0]);
        lemma_encode_utf8_concat(a.drop_first(), b);
    }
}

/// UTF-8 encoding of one more character.
pub proof fn lemma_encode_utf8_push(a: Seq<char>, c: char)
    ensures
        encode_utf8(a.push(c)) == encode_utf8(a) + encode_scalar(c as u32),
{
    lemma_encode_utf8_concat(a, seq![c]);
    assert(a.push(c) == a + seq![c]);
    assert(seq![c].drop_first() == Seq::<char>::empty());
    assert(encode_utf8(Seq::<char>::empty()) == Seq::<u8>::empty());
    assert(encode_scalar(c as u32) + Seq::<u8>::empty() == encode_scalar(c as u32));
    assert(encode_utf8(seq![c]) == encode_scalar(c as u32));
}

/// Appends the UTF-8 encoding of `c` to `out`.
pub fn push_utf8(out: &mut Vec<u8>, c: char)
    ensures
        final(out)@ == old(out)@ + encode_scalar(c as u32),
{
    let v: u32 = c as u32;
    proof {
        char_is_scalar(c);
    }
    if v <= 0x7f {
        out.push((v & 0x7F) as u8);
    } else if v <= 0x7ff {
        out.push(0xC0 | ((v >> 6) & 0x1F) as u8);
        out.push(0x80 | (v & 0x3F) as u8);
    } else if v <= 0xffff {
        out.push(0xE0 | ((v >> 12) & 0x0F) as u8);
        out.push(0x80 | ((v >> 6) & 0x3F) as u8);
        out.push(0x80 | (v & 0x3F) as u8);
    } else {
        out.push(0xF0 | ((v >> 18) & 0x7) as u8);
        out.push(0x80 | ((v >> 12) & 0x3F) as u8);
        out.push(0x80 | ((v >> 6) & 0x3F) as u8);
        out.push(0x80 | (v & 0x3F) as u8);
    }
}

/// Appends the UTF-8 encoding of the characters `s` to `out`.
pub fn push_utf8_all(out: &mut Vec<u8>, s: &Vec<char>)
    ensures
        final(out)@ == old(out)@ + encode_utf8(s@),
{
    let ghost start = out@;
    let n = s.len();
    let mut i: usize = 0;
    while i < n
        invariant
            n == s@.len(),
            i <= n,
            out@ == start + encode_utf8(s@.take(i as int)),
        decreases n - i,
    {
        proof {
            lemma_encode_utf8_push(s@.take(i as int), s@[i as int]);
            assert(s@.take(i as int).push(s@[i as int]) == s@.take(i + 1));
        }
        push_utf8(out, s[i]);
        i = i + 1;
    }
    assert(s@.take(n as int) == s@);
}

/// The UTF-8 encoding of the characters `s`.
pub fn utf8_bytes(s: &Vec<char>) -> (r: Vec<u8>)
    ensures
        r@ == encode_utf8(s@),
{
    let mut out: Vec<u8> = Vec::new();
    push_utf8_all(&mut out, s);
    out
}

/// The characters of `line`, in order.
pub fn chars_of(line: &str) -> (v: Vec<char>)
    ensures
        v@ == line@,
{
    let mut v: Vec<char> = Vec::new();
    for c in it: line.chars()
        invariant
            v@ == it.seq().take(it.index() as int),
            it.seq() == line@,
    {
        v.push(c);
    }
    v
}

/// Decides `is_whitespace`.
pub fn char_is_whitespace(c: char) -> (r: bool)
    ensures
        r == is_whitespace(c),
{
    let v: u32 = c as u32;
    (0x09 <= v && v <= 0x0d) || v == 0x20 || v == 0x85 || v == 0xa0 || v == 0x1680 || (0x2000
        <= v && v <= 0x200a) || v == 0x2028 || v == 0x2029 || v == 0x202f || v == 0x205f || v
        == 0x3000
}

/// The words of `s`, as `split_whitespace` defines them.
pub fn words(s: &Vec<char>) -> (r: Vec<Vec<char>>)
    ensures
        r.deep_view() == split_whitespace(s@),
{
    let n = s.len();
    let mut out: Vec<Vec<char>> = Vec::new();
    let mut i: usize = 0;
    assert(out.deep_view() =~= Seq::<Seq<char>>::empty());
    assert(s@.skip(0) == s@);
    while i < n
        invariant
            n == s@.len(),
            i <= n,
            split_whitespace(s@) == out.deep_view() + split_whitespace(s@.skip(i as int)),
        decreases n - i,
    {
        if char_is_whitespace(s[i]) {
            assert(s@.skip(i as int).drop_first() == s@.skip(i + 1));
            i = i + 1;
        } else {
            let ghost rest = s@.skip(i as int);
            let mut word: Vec<char> = Vec::new();
            let mut j: usize = i;
            while j < n && !char_is_whitespace(s[j])
                invariant
                    n == s@.len(),
                    i <= j <= n,
                    rest == s@.skip(i as int),
                    word@ == s@.subrange(i as int, j as int),
                    word_len(rest) == (j - i) + word_len(s@.skip(j as int)),
                decreases n - j,
            {
                assert(s@.skip(j as int).drop_first() == s@.skip(j + 1));
                word.push(s[j]);
                j = j + 1;
            }
            assert(word_len(s@.skip(j as int)) == 0);
            assert(rest.take(word_len(rest) as int) == word@);
            assert(rest.skip(word_len(rest) as int) == s@.skip(j as int));
            let ghost before = out.deep_view();
            assert(word.deep_view() =~= word@);
            out.push(word);
            assert(out.deep_view() =~= before.push(word@));
            assert(before + split_whitespace(rest) == out.deep_view() + split_whitespace(
                s@.skip(j as int),
            ));
            i = j;
        }
    }
    assert(s@.skip(n as int) == Seq::<char>::empty());
    assert(out.deep_view() + Seq::<Seq<char>>::empty() == out.deep_view());
    out
}

} // verus!
