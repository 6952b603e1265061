//! Splitting text into pieces and lines, and joining them back.

use crate::text;
use vstd::prelude::*;

verus! {

// ---------------------------------------------------------------------------
// Splitting and joining
// ---------------------------------------------------------------------------

/// The pieces of `s` between its `separator`s: always at least one
pub open spec fn split(s: Seq<char>, separator: char) -> Seq<Seq<char>>
    decreases s.len(),
{
    if s.len() == 0 {
        seq![Seq::<char>::empty()]
    } else if s.last() == separator {
        split(s.drop_last(), separator).push(Seq::<char>::empty())
    } else {
        let head = split(s.drop_last(), separator);
        head.update(head.len() - 1, head.last().push(s.last()))
    }
}

/// The parts, with `separator` between them
pub open spec fn join(parts: Seq<Seq<char>>, separator: Seq<char>) -> Seq<char>
    decreases parts.len(),
{
    if parts.len() == 0 {
        Seq::empty()
    } else if parts.len() == 1 {
        parts[0]
    } else {
        join(parts.drop_last(), separator) + separator + parts.last()
    }
}

/// There is at least one piece, and none holds the separator
pub proof fn lemma_split(s: Seq<char>, separator: char)
    ensures
        split(s, separator).len() > 0,
        forall|i: int|
            0 <= i < split(s, separator).len() ==> !(#[trigger] split(s, separator)[i]).contains(
                separator,
            ),
    decreases s.len(),
{
    if s.len() > 0 {
        let head = split(s.drop_last(), separator);
        lemma_split(s.drop_last(), separator);
        if s.last() != separator {
            let piece = head.last().push(s.last());
            assert forall|k: int| 0 <= k < piece.len() implies piece[k] != separator by {
                if k < head.last().len() {
                    assert(head.last().contains(piece[k]));
                }
            }
        }
    }
}

/// Joining the pieces of a text gives the text back
pub proof fn lemma_join_split(s: Seq<char>, separator: char)
    ensures
        join(split(s, separator), seq![separator]) == s,
    decreases s.len(),
{
    if s.len() > 0 {
        let head = split(s.drop_last(), separator);
        let sep = seq![separator];
        lemma_split(s.drop_last(), separator);
        lemma_join_split(s.drop_last(), separator);
        if s.last() == separator {
            let all = head.push(Seq::<char>::empty());
            assert(all.drop_last() =~= head);
            assert(join(all, sep) =~= s.drop_last() + sep);
            assert(s.drop_last() + sep =~= s);
        } else {
            let all = head.update(head.len() - 1, head.last().push(s.last()));
            if head.len() > 1 {
                assert(all.drop_last() =~= head.drop_last());
                assert(join(all, sep) =~= join(head, sep).push(s.last()));
            }
            assert(s.drop_last().push(s.last()) =~= s);
        }
    }
}

/// A text without the separator is one piece
pub proof fn lemma_split_single(s: Seq<char>, separator: char)
    requires
        !s.contains(separator),
    ensures
        split(s, separator) == seq![s],
    decreases s.len(),
{
    if s.len() > 0 {
        assert(s.last() == s[s.len() - 1]);
        assert forall|k: int| 0 <= k < s.drop_last().len() implies s.drop_last()[k]
            != separator by {
            assert(s.drop_last()[k] == s[k]);
        }
        lemma_split_single(s.drop_last(), separator);
        assert(s.drop_last().push(s.last()) =~= s);
        assert(split(s, separator) =~= seq![s]);
    } else {
        assert(s =~= Seq::empty());
    }
}

/// The pieces of two texts around a separator are the pieces of both
pub proof fn lemma_split_concat(first: Seq<char>, separator: char, second: Seq<char>)
    ensures
        split(first.push(separator) + second, separator) == split(first, separator) + split(
            second,
            separator,
        ),
    decreases second.len(),
{
    let all = first.push(separator) + second;
    if second.len() == 0 {
        assert(all =~= first.push(separator));
        assert(all.drop_last() =~= first);
        assert(split(all, separator) =~= split(first, separator) + split(second, separator));
    } else {
        let shorter = second.drop_last();
        lemma_split_concat(first, separator, shorter);
        lemma_split(shorter, separator);
        assert(all.drop_last() =~= first.push(separator) + shorter);
        assert(all.last() == second.last());
        assert(split(all, separator) =~= split(first, separator) + split(second, separator));
    }
}

/// Parts without the separator are the pieces of what joining them gives
pub proof fn lemma_split_join(parts: Seq<Seq<char>>, separator: char)
    requires
        parts.len() > 0,
        forall|i: int| 0 <= i < parts.len() ==> !(#[trigger] parts[i]).contains(separator),
    ensures
        split(join(parts, seq![separator]), separator) == parts,
    decreases parts.len(),
{
    let sep = seq![separator];
    if parts.len() == 1 {
        lemma_split_single(parts[0], separator);
        assert(seq![parts[0]] =~= parts);
    } else {
        let head = parts.drop_last();
        assert forall|i: int| 0 <= i < head.len() implies !(#[trigger] head[i]).contains(
            separator,
        ) by {
            assert(head[i] == parts[i]);
        }
        lemma_split_join(head, separator);
        assert(join(parts, sep) =~= join(head, sep).push(separator) + parts.last());
        lemma_split_concat(join(head, sep), separator, parts.last());
        assert(parts.last() == parts[parts.len() - 1]);
        lemma_split_single(parts.last(), separator);
        assert(head + seq![parts.last()] =~= parts);
    }
}

/// Joining two lists is joining each, around a separator
pub proof fn lemma_join_concat(
    first: Seq<Seq<char>>,
    second: Seq<Seq<char>>,
    separator: Seq<char>,
)
    requires
        first.len() > 0,
        second.len() > 0,
    ensures
        join(first + second, separator) == join(first, separator) + separator + join(
            second,
            separator,
        ),
    decreases second.len(),
{
    let all = first + second;
    if second.len() == 1 {
        assert(all.drop_last() =~= first);
    } else {
        assert(all.drop_last() =~= first + second.drop_last());
        lemma_join_concat(first, second.drop_last(), separator);
        assert(join(all, separator) =~= join(first, separator) + separator + join(
            second,
            separator,
        ));
    }
}

/// The pieces of a text from its first separator on
pub proof fn lemma_split_first(s: Seq<char>, separator: char, i: int)
    requires
        0 <= i < s.len(),
        s[i] == separator,
        !s.take(i).contains(separator),
    ensures
        split(s, separator) == seq![s.take(i)] + split(s.skip(i + 1), separator),
{
    assert(s =~= s.take(i).push(separator) + s.skip(i + 1));
    lemma_split_concat(s.take(i), separator, s.skip(i + 1));
    lemma_split_single(s.take(i), separator);
}

/// The pieces of `text` between its `separator`s
pub fn split_text(text: &str, separator: char) -> (pieces: Vec<String>)
    ensures
        text::views(pieces@) == split(text@, separator),
        pieces@.len() > 0,
{
    let chars = text::chars_of(text);
    let mut pieces: Vec<String> = Vec::new();
    let mut piece = String::new();
    let mut i: usize = 0;
    proof {
        assert(text::views(pieces@).push(piece@) =~= split(chars@.take(0), separator));
    }
    while i < chars.len()
        invariant
            i <= chars@.len(),
            text::views(pieces@).push(piece@) == split(chars@.take(i as int), separator),
        decreases chars@.len() - i,
    {
        let ghost done = text::views(pieces@).push(piece@);
        let character = chars[i];
        proof {
            assert(chars@.take(i + 1).drop_last() =~= chars@.take(i as int));
            assert(done.last() == piece@);
            assert(done.drop_last() =~= text::views(pieces@));
        }
        if character == separator {
            proof {
                text::lemma_views_push(pieces@, piece);
            }
            pieces.push(piece);
            piece = String::new();
            assert(text::views(pieces@).push(piece@) =~= done.push(Seq::<char>::empty()));
        } else {
            piece.push(character);
            assert(text::views(pieces@).push(piece@) =~= done.update(done.len() - 1, piece@));
        }
        i = i + 1;
    }
    proof {
        assert(chars@.take(i as int) =~= chars@);
        text::lemma_views_push(pieces@, piece);
    }
    pieces.push(piece);
    pieces
}

/// The parts, with `separator` between them
pub fn join_texts(parts: &Vec<String>, separator: &str) -> (joined: String)
    ensures
        joined@ == join(text::views(parts@), separator@),
{
    let mut joined = String::new();
    let mut i: usize = 0;
    while i < parts.len()
        invariant
            i <= parts@.len(),
            joined@ == join(text::views(parts@).take(i as int), separator@),
        decreases parts@.len() - i,
    {
        let ghost views = text::views(parts@);
        proof {
            assert(views.take(i + 1).drop_last() =~= views.take(i as int));
            assert(views.take(i + 1).last() == parts@[i as int]@);
        }
        if i > 0 {
            joined.append(separator);
        }
        joined.append(parts[i].as_str());
        proof {
            if i == 0 {
                assert(joined@ =~= parts@[0]@);
            }
        }
        i = i + 1;
    }
    assert(text::views(parts@).take(i as int) =~= text::views(parts@));
    joined
}

// ---------------------------------------------------------------------------
// Lines
// ---------------------------------------------------------------------------

/// A line's text without the carriage return that it may end with
pub open spec fn without_return(line: Seq<char>) -> Seq<char> {
    if line.len() > 0 && line.last() == '\r' {
        line.drop_last()
    } else {
        line
    }
}

/// The lines of `s`, without their line ends (`\n` or `\r\n`); the last line's
/// end is optional
pub open spec fn lines_of(s: Seq<char>) -> Seq<Seq<char>> {
    let pieces = split(s, '\n');
    let ended = Seq::new((pieces.len() - 1) as nat, |i: int| without_return(pieces[i]));
    if pieces.last().len() == 0 {
        ended
    } else {
        ended.push(pieces.last())
    }
}

/// The lines of `text`, without their line ends
pub fn lines(text: &str) -> (lines: Vec<String>)
    ensures
        text::views(lines@) == lines_of(text@),
{
    let pieces = split_text(text, '\n');
    let mut lines: Vec<String> = Vec::new();
    let mut i: usize = 0;
    let last: usize = pieces.len() - 1;
    while i < last
        invariant
            i <= last,
            last == pieces@.len() - 1,
            lines@.len() == i,
            forall|j: int| 0 <= j < i ==> (#[trigger] lines@[j])@ == without_return(pieces@[j]@),
        decreases last - i,
    {
        let piece = pieces[i].as_str();
        let line = match text::strip_suffix(piece, "\r") {
            Some(line) => line,
            None => piece.to_owned(),
        };
        proof {
            reveal_strlit("\r");
            let p = piece@;
            if p.len() > 0 {
                assert(p.skip(p.len() - 1) =~= seq![p.last()]);
                assert("\r"@ =~= seq!['\r']);
                if p.last() == '\r' {
                    assert("\r"@.is_suffix_of(p));
                    assert(p.take(p.len() - 1) =~= p.drop_last());
                } else {
                    if "\r"@.is_suffix_of(p) {
                        assert(p.skip(p.len() - 1)[0] == '\r');
                    }
                }
            }
        }
        lines.push(line);
        i = i + 1;
    }
    proof {
        assert(text::views(pieces@).last() == pieces@[last as int]@);
    }
    if text::chars_of(pieces[last].as_str()).len() > 0 {
        lines.push(pieces[last].clone());
    }
    assert(text::views(lines@) =~= lines_of(text@));
    lines
}

/// How many characters the first `count` lines of `s` take, line ends included
pub open spec fn lines_length(s: Seq<char>, count: nat) -> nat
    decreases s.len(),
{
    if count == 0 || s.len() == 0 {
        0
    } else if s[0] == '\n' {
        1 + lines_length(s.drop_first(), (count - 1) as nat)
    } else {
        1 + lines_length(s.drop_first(), count)
    }
}

pub proof fn lemma_lines_length(s: Seq<char>, count: nat)
    ensures
        lines_length(s, count) <= s.len(),
    decreases s.len(),
{
    if count != 0 && s.len() != 0 {
        if s[0] == '\n' {
            lemma_lines_length(s.drop_first(), (count - 1) as nat);
        } else {
            lemma_lines_length(s.drop_first(), count);
        }
    }
}

/// The index after the first `count` lines of `chars`
pub fn after_lines(chars: &Vec<char>, count: usize) -> (end: usize)
    ensures
        end <= chars@.len(),
        end == lines_length(chars@, count as nat),
{
    let mut end: usize = 0;
    let mut left: usize = count;
    assert(chars@.skip(0) =~= chars@);
    while left > 0 && end < chars.len()
        invariant
            end <= chars@.len(),
            end + lines_length(chars@.skip(end as int), left as nat) == lines_length(
                chars@,
                count as nat,
            ),
        decreases chars@.len() - end,
    {
        assert(chars@.skip(end as int).drop_first() =~= chars@.skip(end + 1));
        if chars[end] == '\n' {
            left = left - 1;
        }
        end = end + 1;
    }
    end
}

} // verus!
