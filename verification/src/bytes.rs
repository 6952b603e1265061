//! Lengths and offsets in bytes, of text in UTF-8.

use crate::text;
use vstd::prelude::*;

verus! {

/// How many bytes `s` takes
pub open spec fn byte_len(s: Seq<char>) -> nat {
    vstd::utf8::encode_utf8(s).len()
}

/// How many bytes a character takes
pub open spec fn char_width(c: char) -> nat {
    if c <= '\u{7f}' {
        1
    } else if c <= '\u{7ff}' {
        2
    } else if c <= '\u{ffff}' {
        3
    } else {
        4
    }
}

pub proof fn lemma_byte_len_concat(first: Seq<char>, second: Seq<char>)
    ensures
        byte_len(first + second) == byte_len(first) + byte_len(second),
    decreases first.len(),
{
    if first.len() == 0 {
        assert(first + second =~= second);
    } else {
        assert((first + second).drop_first() =~= first.drop_first() + second);
        lemma_byte_len_concat(first.drop_first(), second);
    }
}

pub proof fn lemma_byte_len_single(c: char)
    ensures
        byte_len(seq![c]) == char_width(c),
{
    broadcast use vstd::utf8::char_is_scalar;

    assert(seq![c].drop_first() =~= Seq::empty());
    assert(vstd::utf8::encode_utf8(Seq::<char>::empty()).len() == 0);
    assert(vstd::utf8::is_scalar(c as u32));
}

pub proof fn lemma_byte_len_push(s: Seq<char>, c: char)
    ensures
        byte_len(s.push(c)) == byte_len(s) + char_width(c),
{
    lemma_byte_len_concat(s, seq![c]);
    lemma_byte_len_single(c);
    assert(s.push(c) =~= s + seq![c]);
}

/// What comes first takes fewer bytes
pub proof fn lemma_byte_len_take(s: Seq<char>, i: int, j: int)
    requires
        0 <= i <= j <= s.len(),
    ensures
        byte_len(s.take(i)) <= byte_len(s.take(j)),
        i < j ==> byte_len(s.take(i)) < byte_len(s.take(j)),
    decreases j - i,
{
    if i < j {
        lemma_byte_len_take(s, i, j - 1);
        assert(s.take(j) =~= s.take(j - 1).push(s[j - 1]));
        lemma_byte_len_push(s.take(j - 1), s[j - 1]);
    }
}

/// Whether a character of `s` starts, or `s` ends, at byte `offset`
pub open spec fn is_boundary(s: Seq<char>, offset: int) -> bool {
    exists|i: int| 0 <= i <= s.len() && byte_len(#[trigger] s.take(i)) == offset
}

/// The index of the character that starts at byte `offset`
pub open spec fn char_index(s: Seq<char>, offset: int) -> int {
    choose|i: int| 0 <= i <= s.len() && byte_len(#[trigger] s.take(i)) == offset
}

/// The character index of an offset is the one index whose offset it is
pub proof fn lemma_char_index(s: Seq<char>, i: int)
    requires
        0 <= i <= s.len(),
    ensures
        is_boundary(s, byte_len(s.take(i)) as int),
        char_index(s, byte_len(s.take(i)) as int) == i,
{
    let offset = byte_len(s.take(i)) as int;
    let j = char_index(s, offset);
    assert(0 <= j <= s.len() && byte_len(s.take(j)) == offset);
    if i < j {
        lemma_byte_len_take(s, i, j);
    } else if j < i {
        lemma_byte_len_take(s, j, i);
    }
}

/// The text before byte `offset`
pub open spec fn before_byte(s: Seq<char>, offset: int) -> Seq<char> {
    s.take(char_index(s, offset))
}

/// The text from byte `offset` on
pub open spec fn from_byte(s: Seq<char>, offset: int) -> Seq<char> {
    s.skip(char_index(s, offset))
}

/// Text put before and after an offset is what stands before and after it
pub proof fn lemma_boundary_concat(first: Seq<char>, second: Seq<char>)
    ensures
        is_boundary(first + second, byte_len(first) as int),
        before_byte(first + second, byte_len(first) as int) == first,
        from_byte(first + second, byte_len(first) as int) == second,
{
    let s = first + second;
    assert(s.take(first.len() as int) =~= first);
    assert(s.skip(first.len() as int) =~= second);
    lemma_char_index(s, first.len() as int);
}

/// What stands before and after an offset makes up the text
pub proof fn lemma_boundary(s: Seq<char>, offset: int)
    requires
        is_boundary(s, offset),
    ensures
        0 <= char_index(s, offset) <= s.len(),
        before_byte(s, offset) + from_byte(s, offset) == s,
        byte_len(before_byte(s, offset)) == offset,
        0 <= offset <= byte_len(s),
{
    let i = char_index(s, offset);
    assert(0 <= i <= s.len() && byte_len(s.take(i)) == offset);
    assert(s.take(i) + s.skip(i) =~= s);
    lemma_byte_len_concat(s.take(i), s.skip(i));
}

fn width_of(c: char) -> (width: usize)
    ensures
        width == char_width(c),
{
    if c <= '\u{7f}' {
        1
    } else if c <= '\u{7ff}' {
        2
    } else if c <= '\u{ffff}' {
        3
    } else {
        4
    }
}

/// How many bytes `text` takes
pub fn byte_length(text: &str) -> (length: usize)
    ensures
        length == byte_len(text@),
{
    text.as_bytes().len()
}

/// The index of the character that starts at byte `offset` of `chars`, if one
/// does or the text ends there
pub fn index_at_byte(chars: &Vec<char>, offset: usize) -> (index: Option<usize>)
    ensures
        match index {
            Some(i) => is_boundary(chars@, offset as int) && i == char_index(
                chars@,
                offset as int,
            ) && i <= chars@.len(),
            None => !is_boundary(chars@, offset as int),
        },
{
    let mut i: usize = 0;
    let mut left: usize = offset;
    assert(chars@.take(0) =~= Seq::empty());
    assert(byte_len(Seq::<char>::empty()) == 0);
    loop
        invariant
            i <= chars@.len(),
            left <= offset,
            byte_len(chars@.take(i as int)) + left == offset,
        decreases chars@.len() - i,
    {
        if left == 0 {
            proof {
                lemma_char_index(chars@, i as int);
            }
            return Some(i);
        }
        if i == chars.len() {
            proof {
                if is_boundary(chars@, offset as int) {
                    lemma_boundary(chars@, offset as int);
                    assert(chars@.take(i as int) =~= chars@);
                }
            }
            return None;
        }
        let width = width_of(chars[i]);
        proof {
            assert(chars@.take(i + 1) =~= chars@.take(i as int).push(chars@[i as int]));
            lemma_byte_len_push(chars@.take(i as int), chars@[i as int]);
        }
        if left < width {
            proof {
                if is_boundary(chars@, offset as int) {
                    let j = char_index(chars@, offset as int);
                    assert(0 <= j <= chars@.len() && byte_len(chars@.take(j)) == offset);
                    if j <= i {
                        lemma_byte_len_take(chars@, j, i as int);
                    } else {
                        lemma_byte_len_take(chars@, i + 1, j);
                    }
                }
            }
            return None;
        }
        left = left - width;
        i = i + 1;
    }
}

/// `text` split at byte `offset`; none when that is outside the text or inside
/// a character
pub fn split_at(text: &str, offset: usize) -> (parts: Option<(String, String)>)
    ensures
        match parts {
            Some((before, after)) => is_boundary(text@, offset as int) && before@ == before_byte(
                text@,
                offset as int,
            ) && after@ == from_byte(text@, offset as int),
            None => !is_boundary(text@, offset as int),
        },
{
    let chars = text::chars_of(text);
    match index_at_byte(&chars, offset) {
        Some(i) => {
            let before = text::text_of(&chars, 0, i);
            let after = text::text_of(&chars, i, chars.len());
            assert(before@ =~= chars@.take(i as int));
            assert(after@ =~= chars@.skip(i as int));
            Some((before, after))
        },
        None => None,
    }
}

/// The text from byte `from` up to byte `to`
pub open spec fn byte_range(s: Seq<char>, from: int, to: int) -> Seq<char> {
    s.subrange(char_index(s, from), char_index(s, to))
}

/// The text from byte `from` up to byte `to`; none when either is outside the
/// text or inside a character, or when `to` comes before `from`
pub fn slice(text: &str, from: usize, to: usize) -> (part: Option<String>)
    ensures
        match part {
            Some(part) => from <= to && is_boundary(text@, from as int) && is_boundary(
                text@,
                to as int,
            ) && part@ == byte_range(text@, from as int, to as int),
            None => !(from <= to && is_boundary(text@, from as int) && is_boundary(
                text@,
                to as int,
            )),
        },
{
    let chars = text::chars_of(text);
    if from > to {
        return None;
    }
    match (index_at_byte(&chars, from), index_at_byte(&chars, to)) {
        (Some(first), Some(last)) => {
            proof {
                lemma_boundary(chars@, from as int);
                lemma_boundary(chars@, to as int);
                if last < first {
                    lemma_byte_len_take(chars@, last as int, first as int);
                }
            }
            Some(text::text_of(&chars, first, last))
        },
        _ => None,
    }
}

} // verus!
