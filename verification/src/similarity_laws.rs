//! What holds of how alike texts are.

use crate::lines;
use crate::similarity;
use crate::text;
use crate::text::CharClass;
use crate::text_laws;
use vstd::prelude::*;

verus! {

/// Whether a character is part of a token
pub open spec fn is_token_char(c: char) -> bool {
    ('a' <= c <= 'z') || ('0' <= c <= '9') || seq!['_', '.', '$', '-'].contains(c)
}

proof fn lemma_token_char(c: char)
    ensures
        CharClass::Token.has(c) == is_token_char(c),
{
    let others = seq!['_', '.', '$', '-'];
    assert(others[0] == '_' && others[1] == '.' && others[2] == '$' && others[3] == '-');
    if CharClass::Token.has(c) && !('a' <= c <= 'z') && !('0' <= c <= '9') {
        assert(others.contains(c));
    }
}

/// The tokens of a text, in lower case: a run of token characters that another character
/// ends is a token, and those of the rest follow
pub proof fn law_tokens(s: Seq<char>, token: Seq<char>, other: char, rest: Seq<char>, next: Seq<char>)
    requires
        forall|i: int| 0 <= i < token.len() ==> is_token_char(#[trigger] token[i]),
        !is_token_char(other),
        similarity::lowercase(s) == token + seq![other] + rest,
        similarity::lowercase(next) == rest,
    ensures
        similarity::tokens_of(s) == if token.len() == 0 {
            similarity::tokens_of(next)
        } else {
            seq![token] + similarity::tokens_of(next)
        },
{
    assert forall|i: int| 0 <= i < token.len() implies CharClass::Token.has(#[trigger] token[i]) by {
        lemma_token_char(token[i]);
    }
    lemma_token_char(other);
    text_laws::law_runs_in_order(token, other, rest, CharClass::Token);
    assert(Seq::<Seq<char>>::empty() + similarity::tokens_of(next) =~= similarity::tokens_of(next));
}

/// A text of token characters alone is one token
pub proof fn law_one_token(s: Seq<char>)
    requires
        forall|i: int|
            0 <= i < similarity::lowercase(s).len() ==> is_token_char(
                #[trigger] similarity::lowercase(s)[i],
            ),
        similarity::lowercase(s).len() > 0,
    ensures
        similarity::tokens_of(s) == seq![similarity::lowercase(s)],
{
    let run = similarity::lowercase(s);
    assert forall|i: int| 0 <= i < run.len() implies CharClass::Token.has(#[trigger] run[i]) by {
        lemma_token_char(run[i]);
    }
    lemma_token_char(' ');
    assert(!is_token_char(' '));
    text_laws::law_runs_in_order(run, ' ', Seq::empty(), CharClass::Token);
}

/// The lines that are compared are all those that aren't blank, trimmed, in order
pub proof fn law_significant_lines(list: Seq<Seq<char>>)
    ensures
        similarity::significant(list) == list.filter(
            |line: Seq<char>| !text::is_blank(line),
        ).map_values(|line: Seq<char>| text::trimmed(line)),
    decreases list.len(),
{
    reveal(Seq::filter);
    let solid = |line: Seq<char>| !text::is_blank(line);
    let trim = |line: Seq<char>| text::trimmed(line);
    if list.len() == 0 {
        assert(similarity::significant(list) =~= list.filter(solid).map_values(trim));
    } else {
        let shorter = list.drop_last();
        law_significant_lines(shorter);
        lemma_blank(list.last());
        assert(similarity::significant(list) =~= list.filter(solid).map_values(trim));
    }
}

/// A text is blank when nothing is left of it without the whitespace around it
proof fn lemma_blank(s: Seq<char>)
    ensures
        text::is_blank(s) == (text::trimmed(s).len() == 0),
{
    text::lemma_span(s, CharClass::White);
    let n = text::span(s, CharClass::White) as int;
    if text::is_blank(s) {
        if n < s.len() {
            assert(text::is_white(s[n]));
        }
    } else {
        let i = choose|i: int| 0 <= i < s.len() && !text::is_white(#[trigger] s[i]);
        if n >= s.len() {
            assert(CharClass::White.has(s[i]));
        }
        let rest = s.skip(n);
        assert(!CharClass::White.has(rest[0]));
        lemma_solid_start(rest);
    }
}

/// Something is left of a text that doesn't start with whitespace
proof fn lemma_solid_start(s: Seq<char>)
    requires
        s.len() > 0,
        !CharClass::White.has(s[0]),
    ensures
        text::end_span(s, CharClass::White) < s.len(),
    decreases s.len(),
{
    if s.len() > 1 {
        assert(s.drop_last()[0] == s[0]);
        lemma_solid_start(s.drop_last());
    }
}

/// Every list is as long as what it has in common with itself
proof fn lemma_lcs_same(list: Seq<Seq<char>>)
    ensures
        similarity::lcs(list, list) == list.len(),
    decreases list.len(),
{
    if list.len() > 0 {
        lemma_lcs_same(list.drop_last());
    }
}

/// Tokens that a list has, each as often as it has it
proof fn lemma_common_same(list: Seq<Seq<char>>, count: int)
    requires
        0 <= count <= list.len(),
    ensures
        similarity::common_count(list, list.take(count)) == count,
    decreases count,
{
    let part = list.take(count);
    if count > 0 {
        lemma_common_same(list, count - 1);
        assert(part.drop_last() =~= list.take(count - 1));
        lemma_counts_grow(list, part.last(), count);
    }
}

proof fn lemma_counts_grow(list: Seq<Seq<char>>, token: Seq<char>, count: int)
    requires
        0 <= count <= list.len(),
    ensures
        similarity::count_in(list.take(count), token) <= similarity::count_in(list, token),
        count > 0 && list[count - 1] == token ==> similarity::count_in(list.take(count - 1), token)
            < similarity::count_in(list, token),
    decreases list.len(),
{
    if count == list.len() {
        assert(list.take(count) =~= list);
        if count > 0 {
            assert(list.take(count - 1) =~= list.drop_last());
        }
    } else {
        let shorter = list.drop_last();
        lemma_counts_grow(shorter, token, count);
        assert(shorter.take(count) =~= list.take(count));
        if count > 0 {
            assert(shorter.take(count - 1) =~= list.take(count - 1));
        }
    }
}

/// A text has all its tokens and all its lines in common with itself. Its lines are
/// compared as long as it has a token
pub proof fn law_same_text(s: Seq<char>)
    ensures
        ({
            let found = similarity::similarity_spec(s, s);
            let count = similarity::tokens_of(s).len();
            let significant = similarity::significant(lines::lines_of(s)).len();
            &&& found.tokens.common == count
            &&& found.tokens.first == count
            &&& found.tokens.second == count
            &&& found.lines is Some == (count > 0)
            &&& found.lines matches Some(overlap) ==> overlap.common == significant
                && overlap.first == significant && overlap.second == significant
        }),
{
    let list = similarity::tokens_of(s);
    lemma_common_same(list, list.len() as int);
    assert(list.take(list.len() as int) =~= list);
    lemma_lcs_same(similarity::significant(lines::lines_of(s)));
}

/// Lines are compared when both texts have tokens, and those in common, counted on both
/// sides, are three tenths of all tokens or more
pub proof fn law_lines_are_compared(first: Seq<char>, second: Seq<char>)
    ensures
        ({
            let found = similarity::similarity_spec(first, second);
            let one = similarity::tokens_of(first).len();
            let other = similarity::tokens_of(second).len();
            &&& found.tokens.first == one
            &&& found.tokens.second == other
            &&& found.lines is Some == (one > 0 && other > 0 && 10 * (2 * found.tokens.common) >= 3
                * (one + other))
            &&& found.lines matches Some(overlap) ==> overlap.first == similarity::significant(
                lines::lines_of(first),
            ).len() && overlap.second == similarity::significant(lines::lines_of(second)).len()
        }),
{
}

} // verus!
