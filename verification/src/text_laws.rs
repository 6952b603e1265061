//! What holds of lines, trimmed texts, runs of characters and numbers.

use crate::lines;
use crate::numbers;
use crate::text;
use crate::text::CharClass;
use vstd::prelude::*;

verus! {

// ---------------------------------------------------------------------------
// Lines
// ---------------------------------------------------------------------------

/// A text that starts with a line and its end has that line first, and then the lines
/// of what follows. Either line end is no part of the line
pub proof fn law_lines_in_order(line: Seq<char>, rest: Seq<char>)
    requires
        !line.contains('\n'),
        line.len() > 0 ==> line.last() != '\r',
    ensures
        lines::lines_of(line + seq!['\n'] + rest) == seq![line] + lines::lines_of(rest),
        lines::lines_of(line + seq!['\r', '\n'] + rest) == seq![line] + lines::lines_of(rest),
{
    let ended = line.push('\r');
    let plain = line.push('\n') + rest;
    let returned = ended.push('\n') + rest;
    assert(line + seq!['\n'] + rest =~= plain);
    assert(line + seq!['\r', '\n'] + rest =~= returned);
    assert forall|i: int| 0 <= i < ended.len() implies ended[i] != '\n' by {
        if i < line.len() {
            assert(line.contains(line[i]));
        }
    }
    lines::lemma_split_concat(line, '\n', rest);
    lines::lemma_split_single(line, '\n');
    lines::lemma_split_concat(ended, '\n', rest);
    lines::lemma_split_single(ended, '\n');
    lines::lemma_split(rest, '\n');
    assert(ended.drop_last() =~= line);
    assert(lines::lines_of(plain) =~= seq![line] + lines::lines_of(rest));
    assert(lines::lines_of(returned) =~= seq![line] + lines::lines_of(rest));
}

/// A text without a line end is one line, and an empty one none
pub proof fn law_last_line(line: Seq<char>)
    requires
        !line.contains('\n'),
    ensures
        lines::lines_of(line) == if line.len() == 0 {
            Seq::<Seq<char>>::empty()
        } else {
            seq![line]
        },
{
    lines::lemma_split_single(line, '\n');
    let found = lines::lines_of(line);
    if line.len() == 0 {
        assert(found =~= Seq::<Seq<char>>::empty());
    } else {
        assert(found =~= seq![line]);
    }
}

/// The pieces of a text are what is between its separators: a piece, then a separator
/// and the pieces of the rest
pub proof fn law_pieces_in_order(piece: Seq<char>, separator: char, rest: Seq<char>)
    requires
        !piece.contains(separator),
    ensures
        lines::split(piece + seq![separator] + rest, separator) == seq![piece] + lines::split(
            rest,
            separator,
        ),
        lines::split(piece, separator) == seq![piece],
{
    assert(piece + seq![separator] + rest =~= piece.push(separator) + rest);
    lines::lemma_split_concat(piece, separator, rest);
    lines::lemma_split_single(piece, separator);
}

/// Pieces are joined with the separator between each two
pub proof fn law_joined(first: Seq<Seq<char>>, second: Seq<Seq<char>>, separator: Seq<char>)
    requires
        first.len() > 0,
        second.len() > 0,
    ensures
        lines::join(first + second, separator) == lines::join(first, separator) + separator
            + lines::join(second, separator),
        lines::join(seq![first[0]], separator) == first[0],
{
    lines::lemma_join_concat(first, second, separator);
}

/// A piece between separators, and what is around it
pub proof fn lemma_piece(s: Seq<char>, separator: char, i: int) -> (parts: (Seq<char>, Seq<char>))
    requires
        0 <= i < lines::split(s, separator).len(),
    ensures
        s == parts.0 + lines::split(s, separator)[i] + parts.1,
        parts.0.len() > 0 ==> parts.0.last() == separator,
        parts.1.len() > 0 ==> parts.1[0] == separator,
        parts.1.len() == 0 <==> i == lines::split(s, separator).len() - 1,
    decreases s.len(),
{
    let empty = Seq::<char>::empty();
    if s.len() == 0 {
        assert(s =~= empty + empty + empty);
        (empty, empty)
    } else {
        let shorter = s.drop_last();
        let head = lines::split(shorter, separator);
        let all = lines::split(s, separator);
        assert(s =~= shorter.push(s.last()));
        lines::lemma_split(shorter, separator);
        if s.last() == separator && i == head.len() {
            assert(s =~= s + all[i] + empty);
            (s, empty)
        } else {
            let (before, after) = lemma_piece(shorter, separator, i);
            if s.last() != separator && i == head.len() - 1 {
                assert(after =~= empty);
                assert(s =~= before + all[i] + empty);
                (before, empty)
            } else {
                assert(s =~= before + all[i] + after.push(s.last()));
                (before, after.push(s.last()))
            }
        }
    }
}

/// The pieces before, at and after a place
pub proof fn lemma_pieces_around(
    before: Seq<char>,
    piece: Seq<char>,
    after: Seq<char>,
    separator: char,
)
    requires
        before.len() > 0 ==> before.last() == separator,
        after.len() > 0 ==> after[0] == separator,
        !piece.contains(separator),
    ensures
        lines::split(before + piece + after, separator).contains(piece),
{
    let empty = Seq::<char>::empty();
    lines::lemma_split_single(piece, separator);
    let front = before + piece;
    let first = lines::split(front, separator);
    if before.len() == 0 {
        assert(front =~= piece);
    } else {
        assert(front =~= before.drop_last().push(separator) + piece);
        lines::lemma_split_concat(before.drop_last(), separator, piece);
    }
    assert(first.last() == piece);
    lines::lemma_split(front, separator);
    if after.len() == 0 {
        assert(front + after =~= front);
        assert(first[first.len() - 1] == piece);
    } else {
        assert(front + after =~= front.push(separator) + after.drop_first());
        lines::lemma_split_concat(front, separator, after.drop_first());
        let all = lines::split(front + after, separator);
        assert(all[first.len() - 1] == piece);
    }
}

// ---------------------------------------------------------------------------
// Runs
// ---------------------------------------------------------------------------

/// What is left of a text without the whitespace around it
pub proof fn law_trimmed(before: Seq<char>, body: Seq<char>, after: Seq<char>)
    requires
        text::is_blank(before),
        text::is_blank(after),
        body.len() > 0 ==> !text::is_white(body[0]) && !text::is_white(body.last()),
    ensures
        text::trimmed(before + body + after) == body,
{
    let s = before + body + after;
    if body.len() == 0 {
        assert forall|i: int| 0 <= i < s.len() implies CharClass::White.has(s[i]) by {
            if i < before.len() {
                assert(text::is_white(before[i]));
            } else {
                assert(text::is_white(after[i - before.len()]));
            }
        }
        text::lemma_span_is(s, CharClass::White, s.len() as int);
        assert(text::after_run(s, CharClass::White) =~= body);
        assert(text::trimmed(s) =~= body);
    } else {
        assert forall|i: int| 0 <= i < before.len() implies CharClass::White.has(s[i]) by {
            assert(text::is_white(before[i]));
        }
        text::lemma_span_is(s, CharClass::White, before.len() as int);
        let rest = text::after_run(s, CharClass::White);
        assert(rest =~= body + after);
        lemma_end_run(body, after);
        assert(text::trimmed(s) =~= body);
    }
}

/// The whitespace a text ends with
proof fn lemma_end_run(body: Seq<char>, after: Seq<char>)
    requires
        text::is_blank(after),
        body.len() > 0,
        !text::is_white(body.last()),
    ensures
        text::end_span(body + after, CharClass::White) == after.len(),
    decreases after.len(),
{
    let s = body + after;
    if after.len() > 0 {
        let shorter = after.drop_last();
        assert(text::is_white(after[after.len() - 1]));
        assert forall|i: int| 0 <= i < shorter.len() implies text::is_white(
            #[trigger] shorter[i],
        ) by {
            assert(text::is_white(after[i]));
        }
        lemma_end_run(body, shorter);
        assert(s.drop_last() =~= body + shorter);
    } else {
        assert(s =~= body);
    }
}

/// A run of characters of a kind, then one of another kind: the run is found, and then
/// those of the rest
pub proof fn law_runs_in_order(run: Seq<char>, other: char, rest: Seq<char>, class: CharClass)
    requires
        forall|i: int| 0 <= i < run.len() ==> class.has(#[trigger] run[i]),
        !class.has(other),
    ensures
        text::runs(run + seq![other] + rest, class) == text::runs(run, class) + text::runs(
            rest,
            class,
        ),
        text::runs(run, class) == if run.len() == 0 {
            Seq::<Seq<char>>::empty()
        } else {
            seq![run]
        },
    decreases rest.len(),
{
    lemma_one_run(run, class);
    let all = run + seq![other] + rest;
    let first = text::runs(run, class);
    if rest.len() == 0 {
        assert(all.drop_last() =~= run);
        assert(text::runs(all, class) =~= first + text::runs(rest, class));
    } else {
        let shorter = rest.drop_last();
        law_runs_in_order(run, other, shorter, class);
        assert(all.drop_last() =~= run + seq![other] + shorter);
        assert(all.last() == rest.last());
        if rest.len() >= 2 {
            assert(all[all.len() - 2] == rest[rest.len() - 2]);
            if class.has(rest[rest.len() - 2]) {
                lemma_some_run(shorter, class);
            }
        } else {
            assert(all[all.len() - 2] == other);
        }
        assert(text::runs(all, class) =~= first + text::runs(rest, class));
    }
}

/// A text that ends with a character of a kind has a run
proof fn lemma_some_run(s: Seq<char>, class: CharClass)
    requires
        s.len() > 0,
        class.has(s.last()),
    ensures
        text::runs(s, class).len() > 0,
    decreases s.len(),
{
    if s.len() >= 2 && class.has(s[s.len() - 2]) {
        lemma_some_run(s.drop_last(), class);
    }
}

proof fn lemma_one_run(run: Seq<char>, class: CharClass)
    requires
        forall|i: int| 0 <= i < run.len() ==> class.has(#[trigger] run[i]),
    ensures
        text::runs(run, class) == if run.len() == 0 {
            Seq::<Seq<char>>::empty()
        } else {
            seq![run]
        },
    decreases run.len(),
{
    if run.len() > 0 {
        let shorter = run.drop_last();
        assert forall|i: int| 0 <= i < shorter.len() implies class.has(#[trigger] shorter[i]) by {
            assert(shorter[i] == run[i]);
        }
        lemma_one_run(shorter, class);
        assert(class.has(run[run.len() - 1]));
        assert(shorter.push(run.last()) =~= run);
        if run.len() == 1 {
            assert(seq![run.last()] =~= run);
            assert(text::runs(shorter, class) =~= Seq::<Seq<char>>::empty());
            assert(text::runs(run, class) =~= seq![run]);
        } else {
            assert(class.has(run[run.len() - 2]));
            assert(text::runs(run, class) =~= seq![run]);
        }
    } else {
        assert(text::runs(run, class) =~= Seq::<Seq<char>>::empty());
    }
}

// ---------------------------------------------------------------------------
// Numbers
// ---------------------------------------------------------------------------

/// A number in decimal digits reads back, as long as it is no more than the limit
pub proof fn law_number_reads_back(value: nat, limit: nat)
    ensures
        numbers::parse_spec(numbers::decimal_spec(value), limit) == if value <= limit {
            Some(value)
        } else {
            None
        },
{
    numbers::lemma_decimal(value);
}

/// The digits of a number are those of its tenth, and then that of what is left
pub proof fn law_digits(value: nat, digit: nat)
    requires
        digit < 10,
        value > 0,
    ensures
        numbers::decimal_spec(10 * value + digit) == numbers::decimal_spec(value)
            + numbers::decimal_spec(digit),
        numbers::decimal_spec(digit) == seq![
            seq!['0', '1', '2', '3', '4', '5', '6', '7', '8', '9'][digit as int],
        ],
{
    assert((10 * value + digit) / 10 == value);
    assert((10 * value + digit) % 10 == digit);
    assert(numbers::decimal_spec(10 * value + digit) =~= numbers::decimal_spec(value)
        + numbers::decimal_spec(digit));
    assert(numbers::decimal_spec(digit) =~= seq![
        seq!['0', '1', '2', '3', '4', '5', '6', '7', '8', '9'][digit as int],
    ]);
}

} // verus!
