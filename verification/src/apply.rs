//! Applying options to code, and the placeholders they declare.
//!
//! In `param` and `remove-lines-starting-with`, `*` stands for any name
//! (letters, digits and `_`): `param: "<*>"` makes every `<NAME>` in the code a
//! placeholder, without the marker spelling any of them out.

use crate::bytes;
use crate::docs;
use crate::engines;
use crate::lines;
use crate::options;
use crate::options::MarkerOption;
use crate::options::OptionModel;
use crate::options::OptionValue;
use crate::options::ValueModel;
use crate::text;
use crate::text::CharClass;
use crate::wildcards;
use vstd::prelude::*;

verus! {

// ---------------------------------------------------------------------------
// Wildcards
// ---------------------------------------------------------------------------

/// The literal pieces of a value around its `*`s
pub open spec fn pieces(value: Seq<char>) -> Seq<Seq<char>> {
    lines::split(value, '*')
}

/// Why an option doesn't fit some code: what is said of it, and the reason behind that,
/// if there is one
#[derive(Debug, PartialEq, Eq)]
pub struct Misfit {
    pub message: String,
    pub reason: Option<String>,
}

/// Why an option doesn't fit some code
pub struct MisfitModel {
    pub message: Seq<char>,
    pub reason: Option<Seq<char>>,
}

impl View for Misfit {
    type V = MisfitModel;

    open spec fn view(&self) -> MisfitModel {
        MisfitModel { message: self.message@, reason: text::option_view(self.reason) }
    }
}

/// What is said, with the reason behind it
pub open spec fn chain_spec(misfit: MisfitModel) -> Seq<char> {
    match misfit.reason {
        Some(reason) => misfit.message + ": "@ + reason,
        None => misfit.message,
    }
}

impl Misfit {
    /// What is said, with the reason behind it
    pub fn chain(&self) -> (whole: String)
        ensures
            whole@ == chain_spec(self@),
    {
        match &self.reason {
            Some(reason) => text::surround(self.message.as_str(), ": ", reason.as_str()),
            None => self.message.clone(),
        }
    }
}

/// A result whose error has no further reason
pub open spec fn unfit<T>(result: Result<T, Seq<char>>) -> Result<T, MisfitModel> {
    match result {
        Ok(value) => Ok(value),
        Err(message) => Err(MisfitModel { message, reason: None }),
    }
}

/// Why a value can't be searched for: its pattern doesn't compile
pub open spec fn wildcard_misfit(value: Seq<char>) -> MisfitModel {
    MisfitModel {
        message: "compiling the pattern for \""@ + value + "\""@,
        reason: engines::regex_refusal(engines::wildcard_source(pieces(value))),
    }
}

/// Why a value can't be searched for, given the reason its pattern doesn't compile
fn wildcard_refused(value: &str, reason: String) -> (misfit: Misfit)
    ensures
        misfit@.message == "compiling the pattern for \""@ + value@ + "\""@,
        misfit@.reason == Some(reason@),
{
    Misfit {
        message: text::surround("compiling the pattern for \"", value, "\""),
        reason: Some(reason),
    }
}

/// Whether a value can be searched for
pub open spec fn searchable(value: Seq<char>) -> bool {
    value.contains('*') ==> engines::regex_accepts(engines::wildcard_source(pieces(value)))
}

/// Whether `value`, with a name for each `*` in it, stands somewhere in `s`
pub open spec fn appears(value: Seq<char>, s: Seq<char>) -> bool {
    if value.contains('*') {
        engines::stands_in(pieces(value), s)
    } else {
        text::occurs(s, value)
    }
}

/// Whether `s` starts with `value`, with a name for each `*` in it
pub open spec fn starts_like(value: Seq<char>, s: Seq<char>) -> bool {
    if value.contains('*') {
        engines::stands_at(pieces(value), s, 0)
    } else {
        value.is_prefix_of(s)
    }
}

fn has_star(value: &str) -> (found: bool)
    ensures
        found == value@.contains('*'),
{
    let chars = text::chars_of(value);
    let mut i: usize = 0;
    while i < chars.len()
        invariant
            i <= chars@.len(),
            chars@ == value@,
            forall|j: int| 0 <= j < i ==> chars@[j] != '*',
        decreases chars@.len() - i,
    {
        if chars[i] == '*' {
            assert(value@[i as int] == '*');
            return true;
        }
        i = i + 1;
    }
    false
}

/// The pattern for a value with `*` wildcards; None when it has none
pub fn wildcard_regex(value: &str) -> (pattern: Result<Option<String>, Misfit>)
    ensures
        match pattern {
            Ok(None) => !value@.contains('*'),
            Ok(Some(pattern)) => value@.contains('*') && searchable(value@) && pattern@
                == engines::wildcard_source(pieces(value@)),
            Err(misfit) => !searchable(value@) && misfit@ == wildcard_misfit(value@),
        },
{
    if !has_star(value) {
        return Ok(None);
    }
    let parts = lines::split_text(value, '*');
    let mut escaped: Vec<String> = Vec::new();
    let mut i: usize = 0;
    let ghost all = engines::escaped_pieces(pieces(value@));
    while i < parts.len()
        invariant
            i <= parts@.len(),
            text::views(parts@) == pieces(value@),
            all == engines::escaped_pieces(pieces(value@)),
            text::views(escaped@) == all.take(i as int),
        decreases parts@.len() - i,
    {
        let part = engines::regex_escape(parts[i].as_str());
        proof {
            text::lemma_views_push(escaped@, part);
            assert(text::views(parts@)[i as int] == parts@[i as int]@);
            assert(all.take(i as int).push(part@) =~= all.take(i + 1));
        }
        escaped.push(part);
        i = i + 1;
    }
    assert(all.take(i as int) =~= all);
    let pattern = lines::join_texts(&escaped, engines::NAME_PATTERN);
    match engines::regex_compile(pattern.as_str()) {
        Ok(_) => Ok(Some(pattern)),
        Err(reason) => Err(wildcard_refused(value, reason)),
    }
}

proof fn lemma_pieces(value: Seq<char>)
    ensures
        pieces(value).len() > 0,
{
    lines::lemma_split(value, '*');
}

/// What a match at the start says of a text
pub open spec fn at_start(found: Option<(Seq<char>, Seq<char>, Seq<char>)>) -> bool {
    found matches Some((before, _, _)) && before.len() == 0
}

/// Whether a match is at the start of the text searched
pub fn found_at_start(found: &Option<engines::Found>) -> (at: bool)
    ensures
        at == at_start(engines::found_view(*found)),
{
    match found {
        Some((before, _, _)) => text::chars_of(before.as_str()).len() == 0,
        None => false,
    }
}

/// The leftmost match of a wildcard tells whether it stands at the start
proof fn lemma_found_at_start(
    parts: Seq<Seq<char>>,
    s: Seq<char>,
    found: Option<(Seq<char>, Seq<char>, Seq<char>)>,
)
    requires
        engines::finds_wildcard(parts, s, found),
        found matches Some((before, matched, after)) ==> before + matched + after == s,
    ensures
        at_start(found) == engines::stands_at(parts, s, 0),
{
    match found {
        Some((before, matched, after)) => {
            if before.len() == 0 {
                assert(s.subrange(0, matched.len() as int) =~= matched);
                assert(engines::stands_at(parts, s, 0));
            } else {
                assert(!engines::stands_at(parts, s, 0));
            }
        },
        None => {
            if engines::stands_at(parts, s, 0) {
                assert(engines::stands_in(parts, s));
            }
        },
    }
}

/// A wildcard has a match where it stands somewhere
proof fn lemma_found(
    parts: Seq<Seq<char>>,
    s: Seq<char>,
    found: Option<(Seq<char>, Seq<char>, Seq<char>)>,
)
    requires
        engines::finds_wildcard(parts, s, found),
        found matches Some((before, matched, after)) ==> before + matched + after == s,
    ensures
        found is Some == engines::stands_in(parts, s),
{
    if let Some((before, matched, after)) = found {
        let i = before.len() as int;
        let j = i + matched.len();
        assert(s.subrange(i, j) =~= matched);
        assert(engines::stands_at(parts, s, i));
    }
}

// ---------------------------------------------------------------------------
// Lists of lines
// ---------------------------------------------------------------------------

/// How many bytes of whitespace `s` starts with
pub open spec fn indentation(s: Seq<char>) -> nat {
    bytes::byte_len(s.take(text::span(s, CharClass::White) as int))
}

/// How many bytes of whitespace `line` starts with
pub fn indentation_width(line: &str) -> (width: usize)
    ensures
        width == indentation(line@),
{
    let rest = text::trim_start(line, CharClass::White);
    proof {
        text::lemma_span(line@, CharClass::White);
        let n = text::span(line@, CharClass::White) as int;
        assert(line@ =~= line@.take(n) + rest@);
        bytes::lemma_byte_len_concat(line@.take(n), rest@);
    }
    bytes::byte_length(line) - bytes::byte_length(rest.as_str())
}

/// The lines without `prefix` after the first line's indentation
pub open spec fn remove_prefix_spec(list: Seq<Seq<char>>, prefix: Seq<char>) -> Result<
    Seq<Seq<char>>,
    Seq<char>,
> {
    if list.len() == 0 {
        Err("the code has no first line"@)
    } else {
        let indent = list[0].take(text::span(list[0], CharClass::White) as int);
        match text::without_prefix(text::after_run(list[0], CharClass::White), prefix) {
            Some(rest) => Ok(list.update(0, indent + rest)),
            None => Err("the first line doesn't start with \""@ + prefix + "\""@),
        }
    }
}

pub fn remove_prefix(list: Vec<String>, prefix: &str) -> (result: Result<Vec<String>, String>)
    ensures
        match result {
            Ok(result) => remove_prefix_spec(text::views(list@), prefix@) == Ok::<_, Seq<char>>(
                text::views(result@),
            ),
            Err(error) => remove_prefix_spec(text::views(list@), prefix@) == Err::<
                Seq<Seq<char>>,
                _,
            >(error@),
        },
{
    let mut result = list;
    if result.len() == 0 {
        return Err("the code has no first line".to_owned());
    }
    let chars = text::chars_of(result[0].as_str());
    let width = text::span_end(&chars, 0, CharClass::White);
    let indent = text::text_of(&chars, 0, width);
    let unindented = text::trim_start(result[0].as_str(), CharClass::White);
    proof {
        assert(chars@.skip(0) =~= chars@);
        assert(indent@ =~= chars@.take(width as int));
    }
    match text::strip_prefix(unindented.as_str(), prefix) {
        None => Err(text::surround("the first line doesn't start with \"", prefix, "\"")),
        Some(rest) => {
            let mut line = indent;
            line.append(rest.as_str());
            result.set(0, line);
            assert(text::views(result@) =~= text::views(list@).update(0, line@));
            Ok(result)
        },
    }
}

/// The lines without `suffix` at the end of the last one
pub open spec fn remove_suffix_spec(list: Seq<Seq<char>>, suffix: Seq<char>) -> Result<
    Seq<Seq<char>>,
    Seq<char>,
> {
    if list.len() == 0 {
        Err("the code has no last line"@)
    } else {
        match text::without_suffix(list.last(), suffix) {
            Some(rest) => Ok(list.update(list.len() - 1, rest)),
            None => Err("the last line doesn't end with \""@ + suffix + "\""@),
        }
    }
}

pub fn remove_suffix(list: Vec<String>, suffix: &str) -> (result: Result<Vec<String>, String>)
    ensures
        match result {
            Ok(result) => remove_suffix_spec(text::views(list@), suffix@) == Ok::<_, Seq<char>>(
                text::views(result@),
            ),
            Err(error) => remove_suffix_spec(text::views(list@), suffix@) == Err::<
                Seq<Seq<char>>,
                _,
            >(error@),
        },
{
    let mut result = list;
    if result.len() == 0 {
        return Err("the code has no last line".to_owned());
    }
    let last: usize = result.len() - 1;
    assert(text::views(list@).last() == list@[last as int]@);
    match text::strip_suffix(result[last].as_str(), suffix) {
        None => Err(text::surround("the last line doesn't end with \"", suffix, "\"")),
        Some(rest) => {
            result.set(last, rest);
            assert(text::views(result@) =~= text::views(list@).update(last as int, rest@));
            Ok(result)
        },
    }
}

/// A line without `prefix`, where it starts with it
pub open spec fn unprefixed(line: Seq<char>, prefix: Seq<char>) -> Seq<char> {
    match text::without_prefix(line, prefix) {
        Some(rest) => rest,
        None => line,
    }
}

/// The lines without `prefix`, where they start with it
pub open spec fn strip_line_prefix_spec(list: Seq<Seq<char>>, prefix: Seq<char>) -> Seq<
    Seq<char>,
> {
    Seq::new(list.len(), |i: int| unprefixed(list[i], prefix))
}

pub fn strip_line_prefix(list: Vec<String>, prefix: &str) -> (result: Vec<String>)
    ensures
        text::views(result@) == strip_line_prefix_spec(text::views(list@), prefix@),
{
    let ghost all = strip_line_prefix_spec(text::views(list@), prefix@);
    let mut result: Vec<String> = Vec::new();
    let mut i: usize = 0;
    while i < list.len()
        invariant
            i <= list@.len(),
            all == strip_line_prefix_spec(text::views(list@), prefix@),
            text::views(result@) == all.take(i as int),
        decreases list@.len() - i,
    {
        let line = match text::strip_prefix(list[i].as_str(), prefix) {
            Some(rest) => rest,
            None => list[i].clone(),
        };
        proof {
            text::lemma_views_push(result@, line);
            assert(all.take(i as int).push(line@) =~= all.take(i + 1));
        }
        result.push(line);
        i = i + 1;
    }
    assert(all.take(i as int) =~= all);
    result
}

/// The lines whose text doesn't start with `value`
pub open spec fn without_starting(list: Seq<Seq<char>>, value: Seq<char>) -> Seq<Seq<char>>
    decreases list.len(),
{
    if list.len() == 0 {
        Seq::empty()
    } else if starts_like(value, text::after_run(list.last(), CharClass::White)) {
        without_starting(list.drop_last(), value)
    } else {
        without_starting(list.drop_last(), value).push(list.last())
    }
}

pub open spec fn remove_lines_spec(list: Seq<Seq<char>>, value: Seq<char>) -> Result<
    Seq<Seq<char>>,
    MisfitModel,
> {
    if searchable(value) {
        Ok(without_starting(list, value))
    } else {
        Err(wildcard_misfit(value))
    }
}

/// The lines whose text (after indentation) doesn't start with `line_start`
pub fn remove_lines_starting_with(list: Vec<String>, line_start: &str) -> (result: Result<
    Vec<String>,
    Misfit,
>)
    ensures
        match result {
            Ok(result) => remove_lines_spec(text::views(list@), line_start@) == Ok::<
                _,
                MisfitModel,
            >(text::views(result@)),
            Err(error) => remove_lines_spec(text::views(list@), line_start@) == Err::<
                Seq<Seq<char>>,
                _,
            >(error@),
        },
{
    let pattern = match wildcard_regex(line_start) {
        Ok(pattern) => pattern,
        Err(error) => {
            return Err(error);
        },
    };
    let ghost views = text::views(list@);
    let mut result: Vec<String> = Vec::new();
    let mut i: usize = 0;
    assert(text::views(result@) =~= without_starting(views.take(0), line_start@));
    while i < list.len()
        invariant
            i <= list@.len(),
            views == text::views(list@),
            searchable(line_start@),
            match pattern {
                None => !line_start@.contains('*'),
                Some(pattern) => line_start@.contains('*') && pattern@ == engines::wildcard_source(
                    pieces(line_start@),
                ),
            },
            text::views(result@) == without_starting(views.take(i as int), line_start@),
        decreases list@.len() - i,
    {
        let unindented = text::trim_start(list[i].as_str(), CharClass::White);
        let starts = match &pattern {
            None => text::starts_with(unindented.as_str(), line_start),
            Some(pattern) => match engines::regex_find(pattern.as_str(), unindented.as_str()) {
                Ok(found) => {
                    proof {
                        lemma_pieces(line_start@);
                        lemma_found_at_start(
                            pieces(line_start@),
                            unindented@,
                            engines::found_view(found),
                        );
                    }
                    found_at_start(&found)
                },
                Err(reason) => {
                    return Err(wildcard_refused(line_start, reason));
                },
            },
        };
        proof {
            assert(views.take(i + 1).drop_last() =~= views.take(i as int));
            assert(views.take(i + 1).last() == list@[i as int]@);
        }
        if !starts {
            let line = list[i].clone();
            proof {
                text::lemma_views_push(result@, line);
            }
            result.push(line);
        }
        i = i + 1;
    }
    assert(views.take(i as int) =~= views);
    Ok(result)
}

/// The lines that aren't blank
pub open spec fn without_blank(list: Seq<Seq<char>>) -> Seq<Seq<char>>
    decreases list.len(),
{
    if list.len() == 0 {
        Seq::empty()
    } else if text::is_blank(list.last()) {
        without_blank(list.drop_last())
    } else {
        without_blank(list.drop_last()).push(list.last())
    }
}

/// The lines that aren't blank
pub fn remove_blank_lines(list: Vec<String>) -> (result: Vec<String>)
    ensures
        text::views(result@) == without_blank(text::views(list@)),
{
    let ghost views = text::views(list@);
    let mut result: Vec<String> = Vec::new();
    let mut i: usize = 0;
    assert(text::views(result@) =~= without_blank(views.take(0)));
    while i < list.len()
        invariant
            i <= list@.len(),
            views == text::views(list@),
            text::views(result@) == without_blank(views.take(i as int)),
        decreases list@.len() - i,
    {
        proof {
            assert(views.take(i + 1).drop_last() =~= views.take(i as int));
            assert(views.take(i + 1).last() == list@[i as int]@);
        }
        if !text::blank(list[i].as_str()) {
            let line = list[i].clone();
            proof {
                text::lemma_views_push(result@, line);
            }
            result.push(line);
        }
        i = i + 1;
    }
    assert(views.take(i as int) =~= views);
    result
}

/// The least indentation of the lines that aren't blank
pub open spec fn least_indentation(list: Seq<Seq<char>>) -> Option<nat>
    decreases list.len(),
{
    if list.len() == 0 {
        None
    } else if text::is_blank(list.last()) {
        least_indentation(list.drop_last())
    } else {
        match least_indentation(list.drop_last()) {
            Some(least) => if least <= indentation(list.last()) {
                Some(least)
            } else {
                Some(indentation(list.last()))
            },
            None => Some(indentation(list.last())),
        }
    }
}

/// The indentation all lines that aren't blank share
pub open spec fn common_indentation(list: Seq<Seq<char>>) -> nat {
    match least_indentation(list) {
        Some(least) => least,
        None => 0,
    }
}

/// How a text is shown for debugging
pub uninterp spec fn debug_text(shown: Seq<char>) -> Seq<char>;

/// `{:?}` of a `str`: how it is shown rests on the text alone.
#[verifier::external_body]
pub(crate) fn show_debug(shown: &str) -> (result: String)
    ensures
        result@ == debug_text(shown@),
{
    format!("{shown:?}")
}

/// A line without `width` bytes of indentation, or all it has
pub open spec fn unindented(line: Seq<char>, width: nat) -> Result<Seq<char>, Seq<char>> {
    let cut = if width <= indentation(line) {
        width
    } else {
        indentation(line)
    };
    if bytes::is_boundary(line, cut as int) {
        Ok(bytes::from_byte(line, cut as int))
    } else {
        Err(
            "can't unindent "@ + debug_text(line)
                + ": lines are indented with different kinds of whitespace"@,
        )
    }
}

/// The lines without `width` bytes of indentation, or what is wrong with the first
/// that can't be unindented
pub open spec fn unindent_spec(list: Seq<Seq<char>>, width: nat) -> Result<
    Seq<Seq<char>>,
    Seq<char>,
>
    decreases list.len(),
{
    if list.len() == 0 {
        Ok(Seq::empty())
    } else {
        match unindent_spec(list.drop_last(), width) {
            Err(error) => Err(error),
            Ok(done) => match unindented(list.last(), width) {
                Err(error) => Err(error),
                Ok(line) => Ok(done.push(line)),
            },
        }
    }
}

/// An error stands, whatever lines follow
proof fn lemma_unindent_error(list: Seq<Seq<char>>, width: nat, i: int)
    requires
        0 <= i <= list.len(),
        unindent_spec(list.take(i), width) is Err,
    ensures
        unindent_spec(list, width) == unindent_spec(list.take(i), width),
    decreases list.len(),
{
    if i == list.len() {
        assert(list.take(i) =~= list);
    } else {
        assert(list.drop_last().take(i) =~= list.take(i));
        lemma_unindent_error(list.drop_last(), width, i);
    }
}

/// The lines without the indentation all lines that aren't blank share
pub fn unindent_common(list: &Vec<String>) -> (result: Result<Vec<String>, String>)
    ensures
        match result {
            Ok(result) => unindent_spec(
                text::views(list@),
                common_indentation(text::views(list@)),
            ) == Ok::<_, Seq<char>>(text::views(result@)),
            Err(error) => unindent_spec(
                text::views(list@),
                common_indentation(text::views(list@)),
            ) == Err::<Seq<Seq<char>>, _>(error@),
        },
{
    let ghost views = text::views(list@);
    let mut least: Option<usize> = None;
    let mut i: usize = 0;
    while i < list.len()
        invariant
            i <= list@.len(),
            views == text::views(list@),
            match least {
                Some(least) => least_indentation(views.take(i as int)) == Some(least as nat),
                None => least_indentation(views.take(i as int)) is None,
            },
        decreases list@.len() - i,
    {
        proof {
            assert(views.take(i + 1).drop_last() =~= views.take(i as int));
            assert(views.take(i + 1).last() == list@[i as int]@);
        }
        if !text::blank(list[i].as_str()) {
            let width = indentation_width(list[i].as_str());
            least = match least {
                Some(least) => if least <= width {
                    Some(least)
                } else {
                    Some(width)
                },
                None => Some(width),
            };
        }
        i = i + 1;
    }
    assert(views.take(i as int) =~= views);
    let common: usize = match least {
        Some(least) => least,
        None => 0,
    };
    let mut result: Vec<String> = Vec::new();
    let mut k: usize = 0;
    assert(text::views(result@) =~= Seq::empty());
    while k < list.len()
        invariant
            k <= list@.len(),
            views == text::views(list@),
            common == common_indentation(views),
            unindent_spec(views.take(k as int), common as nat) == Ok::<_, Seq<char>>(
                text::views(result@),
            ),
        decreases list@.len() - k,
    {
        proof {
            assert(views.take(k + 1).drop_last() =~= views.take(k as int));
            assert(views.take(k + 1).last() == list@[k as int]@);
        }
        let width = indentation_width(list[k].as_str());
        let cut: usize = if common <= width {
            common
        } else {
            width
        };
        match bytes::split_at(list[k].as_str(), cut) {
            Some((_, rest)) => {
                proof {
                    text::lemma_views_push(result@, rest);
                }
                result.push(rest);
            },
            None => {
                let shown = show_debug(list[k].as_str());
                proof {
                    lemma_unindent_error(views, common as nat, k + 1);
                }
                return Err(
                    text::surround(
                        "can't unindent ",
                        shown.as_str(),
                        ": lines are indented with different kinds of whitespace",
                    ),
                );
            },
        }
        k = k + 1;
    }
    assert(views.take(k as int) =~= views);
    Ok(result)
}

/// `count` spaces
pub open spec fn spaces(count: nat) -> Seq<char> {
    Seq::new(count, |i: int| ' ')
}

/// A line with each `from` spaces of its indentation turned into `to`
pub open spec fn reindented(line: Seq<char>, from: nat, to: nat) -> Seq<char> {
    let width = text::span(line, CharClass::Space);
    spaces((width / from) * to + width % from) + text::after_run(line, CharClass::Space)
}

/// The lines with each `from` spaces of their indentation turned into `to`
pub open spec fn reindent_spec(list: Seq<Seq<char>>, from: nat, to: nat) -> Result<
    Seq<Seq<char>>,
    Seq<char>,
> {
    if from == 0 && list.len() > 0 {
        Err("\"reindent\" can't convert from 0 spaces"@)
    } else {
        Ok(Seq::new(list.len(), |i: int| reindented(list[i], from, to)))
    }
}

fn push_spaces(target: &mut String, count: usize)
    ensures
        final(target)@ == old(target)@ + spaces(count as nat),
{
    let ghost before = target@;
    let mut i: usize = 0;
    assert(before + spaces(0) =~= before);
    while i < count
        invariant
            i <= count,
            target@ == before + spaces(i as nat),
        decreases count - i,
    {
        target.push(' ');
        assert((before + spaces(i as nat)).push(' ') =~= before + spaces((i + 1) as nat));
        i = i + 1;
    }
}

/// The lines with each `from` spaces of their indentation turned into `to`
pub fn reindent(list: &Vec<String>, from: usize, to: usize) -> (result: Result<
    Vec<String>,
    String,
>)
    ensures
        match result {
            Ok(result) => reindent_spec(text::views(list@), from as nat, to as nat) == Ok::<
                _,
                Seq<char>,
            >(text::views(result@)),
            Err(error) => reindent_spec(text::views(list@), from as nat, to as nat) == Err::<
                Seq<Seq<char>>,
                _,
            >(error@),
        },
{
    if from == 0 && list.len() > 0 {
        return Err("\"reindent\" can't convert from 0 spaces".to_owned());
    }
    let ghost all = Seq::new(
        list@.len(),
        |i: int| reindented(text::views(list@)[i], from as nat, to as nat),
    );
    let mut result: Vec<String> = Vec::new();
    let mut i: usize = 0;
    while i < list.len()
        invariant
            i <= list@.len(),
            from > 0 || list@.len() == 0,
            all == Seq::new(
                list@.len(),
                |i: int| reindented(text::views(list@)[i], from as nat, to as nat),
            ),
            text::views(result@) == all.take(i as int),
        decreases list@.len() - i,
    {
        let chars = text::chars_of(list[i].as_str());
        let width = text::span_end(&chars, 0, CharClass::Space);
        assert(chars@.skip(0) =~= chars@);
        let steps: usize = width / from;
        let mut line = String::new();
        let mut step: usize = 0;
        assert(line@ =~= spaces((0 * to) as nat));
        while step < steps
            invariant
                step <= steps,
                line@ == spaces((step * to) as nat),
            decreases steps - step,
        {
            push_spaces(&mut line, to);
            proof {
                assert((step + 1) * to == step * to + to) by (nonlinear_arith);
                assert(step * to >= 0) by (nonlinear_arith);
                assert(spaces((step * to) as nat) + spaces(to as nat) =~= spaces(
                    ((step + 1) * to) as nat,
                ));
            }
            step = step + 1;
        }
        push_spaces(&mut line, width % from);
        proof {
            assert(steps * to >= 0) by (nonlinear_arith);
            assert(spaces((steps * to) as nat) + spaces((width % from) as nat) =~= spaces(
                (steps * to + width % from) as nat,
            ));
        }
        let unindented = text::trim_start(list[i].as_str(), CharClass::Space);
        line.append(unindented.as_str());
        proof {
            text::lemma_views_push(result@, line);
            assert(text::views(list@)[i as int] == chars@);
            assert(line@ == all[i as int]);
            assert(all.take(i as int).push(line@) =~= all.take(i + 1));
        }
        result.push(line);
        i = i + 1;
    }
    proof {
        assert(all.take(i as int) =~= all);
        assert(all =~= Seq::new(
            text::views(list@).len(),
            |i: int| reindented(text::views(list@)[i], from as nat, to as nat),
        ));
    }
    Ok(result)
}

/// What is wrong with a `param` that doesn't appear in the code
pub open spec fn param_spec(list: Seq<Seq<char>>, param: Seq<char>) -> Result<(), MisfitModel> {
    if !searchable(param) {
        Err(wildcard_misfit(param))
    } else if !appears(param, lines::join(list, "\n"@)) {
        Err(
            MisfitModel {
                message: "param \""@ + param + "\" doesn't appear in the code"@,
                reason: None,
            },
        )
    } else {
        Ok(())
    }
}

pub fn check_param_appears(list: &Vec<String>, param: &str) -> (result: Result<(), Misfit>)
    ensures
        match result {
            Ok(_) => param_spec(text::views(list@), param@) is Ok,
            Err(error) => param_spec(text::views(list@), param@) == Err::<(), _>(error@),
        },
{
    let code = lines::join_texts(list, "\n");
    let found = match wildcard_regex(param) {
        Err(error) => {
            return Err(error);
        },
        Ok(None) => text::contains(code.as_str(), param),
        Ok(Some(pattern)) => match engines::regex_find(pattern.as_str(), code.as_str()) {
            Ok(found) => {
                proof {
                    lemma_pieces(param@);
                    lemma_found(pieces(param@), code@, engines::found_view(found));
                }
                found.is_some()
            },
            Err(reason) => {
                return Err(wildcard_refused(param, reason));
            },
        },
    };
    if !found {
        return Err(
            Misfit {
                message: text::surround("param \"", param, "\" doesn't appear in the code"),
                reason: None,
            },
        );
    }
    Ok(())
}

// ---------------------------------------------------------------------------
// Options
// ---------------------------------------------------------------------------

/// The lines with an option applied, or why it doesn't fit them
pub open spec fn apply_option_spec(list: Seq<Seq<char>>, option: OptionModel) -> Result<
    Seq<Seq<char>>,
    MisfitModel,
> {
    let value = options::text_value_of(option);
    if option.key == "remove-prefix"@ {
        unfit(remove_prefix_spec(list, value))
    } else if option.key == "remove-suffix"@ {
        unfit(remove_suffix_spec(list, value))
    } else if option.key == "strip-line-prefix"@ {
        Ok(strip_line_prefix_spec(list, value))
    } else if option.key == "remove-lines-starting-with"@ {
        remove_lines_spec(list, value)
    } else if option.key == "remove-blank-lines"@ {
        Ok(without_blank(list))
    } else if option.key == "unindent-common"@ {
        unfit(unindent_spec(list, common_indentation(list)))
    } else if option.key == "reindent"@ {
        match option.value {
            Some(ValueModel::Reindent { from, to }) => unfit(reindent_spec(list, from, to)),
            _ => Ok(list),
        }
    } else if option.key == "param"@ {
        match param_spec(list, value) {
            Ok(_) => Ok(list),
            Err(error) => Err(error),
        }
    } else {
        Ok(list)
    }
}

/// A result whose error has no further reason
fn unfitting(result: Result<Vec<String>, String>) -> (lines: Result<Vec<String>, Misfit>)
    ensures
        match (result, lines) {
            (Ok(result), Ok(lines)) => lines == result,
            (Err(message), Err(misfit)) => misfit@ == (MisfitModel {
                message: message@,
                reason: None,
            }),
            _ => false,
        },
{
    match result {
        Ok(lines) => Ok(lines),
        Err(message) => Err(Misfit { message, reason: None }),
    }
}

/// The lines with an option applied; errors when it doesn't fit them
pub fn apply_option(list: Vec<String>, option: &MarkerOption) -> (result: Result<
    Vec<String>,
    Misfit,
>)
    ensures
        match result {
            Ok(result) => apply_option_spec(text::views(list@), option@) == Ok::<_, MisfitModel>(
                text::views(result@),
            ),
            Err(error) => apply_option_spec(text::views(list@), option@) == Err::<
                Seq<Seq<char>>,
                _,
            >(error@),
        },
{
    let value = option.text_value();
    let key = option.key.as_str();
    if text::same(key, "remove-prefix") {
        unfitting(remove_prefix(list, value))
    } else if text::same(key, "remove-suffix") {
        unfitting(remove_suffix(list, value))
    } else if text::same(key, "strip-line-prefix") {
        Ok(strip_line_prefix(list, value))
    } else if text::same(key, "remove-lines-starting-with") {
        remove_lines_starting_with(list, value)
    } else if text::same(key, "remove-blank-lines") {
        Ok(remove_blank_lines(list))
    } else if text::same(key, "unindent-common") {
        unfitting(unindent_common(&list))
    } else if text::same(key, "reindent") {
        match &option.value {
            Some(OptionValue::Reindent { from, to }) => unfitting(reindent(&list, *from, *to)),
            _ => Ok(list),
        }
    } else if text::same(key, "param") {
        match check_param_appears(&list, value) {
            Ok(_) => Ok(list),
            Err(error) => Err(error),
        }
    } else {
        Ok(list)
    }
}

/// The lines with options applied in order, or why the first that doesn't fit doesn't
pub open spec fn apply_all(list: Seq<Seq<char>>, applied: Seq<OptionModel>) -> Result<
    Seq<Seq<char>>,
    MisfitModel,
>
    decreases applied.len(),
{
    if applied.len() == 0 {
        Ok(list)
    } else {
        match apply_option_spec(list, applied[0]) {
            Err(error) => Err(error),
            Ok(next) => apply_all(next, applied.drop_first()),
        }
    }
}

/// `s` without the line feed that it may end with
pub open spec fn without_newline(s: Seq<char>) -> Seq<char> {
    if s.len() > 0 && s.last() == '\n' {
        s.drop_last()
    } else {
        s
    }
}

/// The line feed that `s` may end with
pub open spec fn ending_newline(s: Seq<char>) -> Seq<char> {
    if s.len() > 0 && s.last() == '\n' {
        "\n"@
    } else {
        Seq::empty()
    }
}

/// Content with options applied, or why one doesn't fit it
pub open spec fn apply_options_spec(content: Seq<char>, applied: Seq<OptionModel>) -> Result<
    Seq<char>,
    MisfitModel,
> {
    if applied.len() == 0 {
        Ok(content)
    } else {
        match apply_all(lines::split(without_newline(content), '\n'), applied) {
            Err(error) => Err(error),
            Ok(list) => Ok(lines::join(list, "\n"@) + ending_newline(content)),
        }
    }
}

pub proof fn lemma_newline_suffix(s: Seq<char>)
    ensures
        text::without_suffix(s, "\n"@) == (if s.len() > 0 && s.last() == '\n' {
            Some(s.drop_last())
        } else {
            None
        }),
        "\n"@ == seq!['\n'],
{
    reveal_strlit("\n");
    assert("\n"@ =~= seq!['\n']);
    if s.len() > 0 {
        assert(s.skip(s.len() - 1) =~= seq![s.last()]);
        assert(seq![s.last()][0] == s.last());
        assert(s.take(s.len() - 1) =~= s.drop_last());
        if s.last() == '\n' {
            assert("\n"@.is_suffix_of(s));
        } else if "\n"@.is_suffix_of(s) {
            assert("\n"@ =~= s.skip(s.len() - 1));
        }
    }
}

/// Content with options applied; errors when an option doesn't fit it
pub fn apply_options(raw_content: &str, applied: &Vec<MarkerOption>) -> (result: Result<
    String,
    Misfit,
>)
    ensures
        match result {
            Ok(content) => apply_options_spec(raw_content@, options::models(applied@)) == Ok::<
                _,
                MisfitModel,
            >(content@),
            Err(error) => apply_options_spec(raw_content@, options::models(applied@)) == Err::<
                Seq<char>,
                _,
            >(error@),
        },
{
    if applied.len() == 0 {
        return Ok(raw_content.to_owned());
    }
    proof {
        lemma_newline_suffix(raw_content@);
    }
    let (body, has_newline) = match text::strip_suffix(raw_content, "\n") {
        Some(body) => (body, true),
        None => (raw_content.to_owned(), false),
    };
    let mut list = lines::split_text(body.as_str(), '\n');
    let ghost start = text::views(list@);
    let ghost all = options::models(applied@);
    let mut i: usize = 0;
    assert(all.skip(0) =~= all);
    while i < applied.len()
        invariant
            i <= applied@.len(),
            all == options::models(applied@),
            all.len() > 0,
            start == lines::split(without_newline(raw_content@), '\n'),
            apply_all(start, all) == apply_all(text::views(list@), all.skip(i as int)),
        decreases applied@.len() - i,
    {
        proof {
            assert(all.skip(i as int)[0] == applied@[i as int]@);
            assert(all.skip(i as int).drop_first() =~= all.skip(i + 1));
        }
        match apply_option(list, &applied[i]) {
            Ok(next) => {
                list = next;
            },
            Err(error) => {
                return Err(error);
            },
        }
        i = i + 1;
    }
    let mut content = lines::join_texts(&list, "\n");
    if has_newline {
        content.append("\n");
    } else {
        assert(content@ + Seq::<char>::empty() =~= content@);
    }
    Ok(content)
}

/// Whether some option changes the text
pub open spec fn shapes(list: Seq<OptionModel>) -> bool {
    exists|i: int| 0 <= i < list.len() && (#[trigger] list[i]).key != "param"@
}

/// Options that change the text (so whitespace fixes can't be worked out on the result)
pub fn has_shaping_options(list: &Vec<MarkerOption>) -> (found: bool)
    ensures
        found == shapes(options::models(list@)),
{
    let ghost all = options::models(list@);
    let mut i: usize = 0;
    while i < list.len()
        invariant
            i <= list@.len(),
            all == options::models(list@),
            forall|j: int| 0 <= j < i ==> (#[trigger] all[j]).key == "param"@,
        decreases list@.len() - i,
    {
        if !text::same(list[i].key.as_str(), "param") {
            assert(all[i as int].key != "param"@);
            return true;
        }
        i = i + 1;
    }
    false
}

// ---------------------------------------------------------------------------
// Placeholders
// ---------------------------------------------------------------------------

/// The names a `param` value stands for in some content
pub open spec fn param_names_spec(param: Seq<char>, content: Seq<char>) -> Result<
    Seq<Seq<char>>,
    Seq<char>,
> {
    if !searchable(param) {
        Err(chain_spec(wildcard_misfit(param)))
    } else if param.contains('*') {
        Ok(engines::place_texts(content, engines::wildcard_places(pieces(param), content, 0)))
    } else {
        Ok(seq![param])
    }
}

/// The names a `param` value stands for in `content`: each is a part of it with a
/// name for each `*`, and there are none only when no part of it is
pub fn param_names(param: &str, content: &str) -> (names: Result<Vec<String>, String>)
    ensures
        match names {
            Ok(names) => param_names_spec(param@, content@) == Ok::<_, Seq<char>>(
                text::views(names@),
            ),
            Err(error) => param_names_spec(param@, content@) == Err::<Seq<Seq<char>>, _>(error@),
        },
        names matches Ok(names) ==> param@.contains('*') ==> (forall|k: int|
            0 <= k < names@.len() ==> engines::stands_for(pieces(param@), (#[trigger] names@[k])@)
                && text::occurs(content@, names@[k]@)),
        names matches Ok(names) ==> param@.contains('*') ==> (names@.len() > 0) == appears(
            param@,
            content@,
        ),
{
    match wildcard_regex(param) {
        Err(misfit) => Err(misfit.chain()),
        Ok(None) => {
            let mut names: Vec<String> = Vec::new();
            let name = param.to_owned();
            names.push(name);
            assert(text::views(names@) =~= seq![param@]);
            Ok(names)
        },
        Ok(Some(pattern)) => {
            proof {
                wildcards::lemma_pieces_around(param@);
                assert(pattern@ == engines::wildcard_source(pieces(param@)));
            }
            match engines::regex_find_iter(pattern.as_str(), content) {
                Ok(names) => {
                    proof {
                        wildcards::law_names_appear(param@, content@);
                        let expected = engines::place_texts(
                            content@,
                            engines::wildcard_places(pieces(param@), content@, 0),
                        );
                        assert(text::views(names@) == expected);
                        assert forall|k: int| 0 <= k < names@.len() implies engines::stands_for(
                            pieces(param@),
                            (#[trigger] names@[k])@,
                        ) && text::occurs(content@, names@[k]@) by {
                            assert(expected[k] == names@[k]@);
                        }
                    }
                    Ok(names)
                },
                Err(reason) => Err(wildcard_refused(param, reason).chain()),
            }
        },
    }
}

/// The names that `param` options stand for, one list after the other
pub open spec fn all_names(list: Seq<OptionModel>, content: Seq<char>) -> Result<
    Seq<Seq<char>>,
    Seq<char>,
>
    decreases list.len(),
{
    if list.len() == 0 {
        Ok(Seq::empty())
    } else {
        match all_names(list.drop_last(), content) {
            Err(error) => Err(error),
            Ok(names) => if list.last().key == "param"@ {
                match param_names_spec(options::text_value_of(list.last()), content) {
                    Err(error) => Err(error),
                    Ok(more) => Ok(names + more),
                }
            } else {
                Ok(names)
            },
        }
    }
}

/// The placeholders that `param` options declare in some content
pub open spec fn placeholders_spec(list: Seq<OptionModel>, content: Seq<char>) -> Result<
    Seq<Seq<char>>,
    Seq<char>,
> {
    match all_names(list, content) {
        Ok(names) => Ok(text::unique(names)),
        Err(error) => Err(error),
    }
}

proof fn lemma_all_names_error(list: Seq<OptionModel>, content: Seq<char>, i: int)
    requires
        0 <= i <= list.len(),
        all_names(list.take(i), content) is Err,
    ensures
        all_names(list, content) == all_names(list.take(i), content),
    decreases list.len(),
{
    if i == list.len() {
        assert(list.take(i) =~= list);
    } else {
        assert(list.drop_last().take(i) =~= list.take(i));
        lemma_all_names_error(list.drop_last(), content, i);
    }
}

/// The placeholders `param` options declare in `content`: each wildcard
/// `param` stands for every name matching it there
pub fn placeholders(list: &Vec<MarkerOption>, content: &str) -> (names: Result<
    Vec<String>,
    String,
>)
    ensures
        match names {
            Ok(names) => placeholders_spec(options::models(list@), content@) == Ok::<
                _,
                Seq<char>,
            >(text::views(names@)),
            Err(error) => placeholders_spec(options::models(list@), content@) == Err::<
                Seq<Seq<char>>,
                _,
            >(error@),
        },
{
    let ghost all = options::models(list@);
    let mut names: Vec<String> = Vec::new();
    let mut i: usize = 0;
    assert(text::views(names@) =~= Seq::empty());
    while i < list.len()
        invariant
            i <= list@.len(),
            all == options::models(list@),
            all_names(all.take(i as int), content@) == Ok::<_, Seq<char>>(text::views(names@)),
        decreases list@.len() - i,
    {
        proof {
            assert(all.take(i + 1).drop_last() =~= all.take(i as int));
            assert(all.take(i + 1).last() == list@[i as int]@);
        }
        if text::same(list[i].key.as_str(), "param") {
            match param_names(list[i].text_value(), content) {
                Ok(more) => {
                    let mut more = more;
                    let ghost before = names@;
                    let ghost added = more@;
                    names.append(&mut more);
                    assert(text::views(names@) =~= text::views(before) + text::views(added));
                },
                Err(error) => {
                    proof {
                        lemma_all_names_error(all, content@, i + 1);
                    }
                    return Err(error);
                },
            }
        }
        i = i + 1;
    }
    assert(all.take(i as int) =~= all);
    Ok(docs::unique_in_order(&names))
}

// ---------------------------------------------------------------------------
// Writing options under a marker
// ---------------------------------------------------------------------------

/// An option as a continuation line
pub open spec fn continuation_line(indent: Seq<char>, option: OptionModel) -> Seq<char> {
    indent + "#   | "@ + options::option_text(option)
}

/// Options as continuation lines
pub open spec fn continuation_lines_spec(indent: Seq<char>, list: Seq<OptionModel>) -> Seq<char>
    decreases list.len(),
{
    if list.len() == 0 {
        Seq::empty()
    } else {
        continuation_lines_spec(indent, list.drop_last()) + continuation_line(indent, list.last())
            + "\n"@
    }
}

/// An option as a continuation line under a marker indented by `indent`
pub fn continuation_line_text(indent: &str, option: &MarkerOption) -> (line: String)
    ensures
        line@ == continuation_line(indent@, option@),
{
    let written = option.marker_text();
    text::surround(indent, "#   | ", written.as_str())
}

/// Options as continuation lines under a marker indented by `indent`
pub fn continuation_lines(indent: &str, list: &Vec<MarkerOption>) -> (written: String)
    ensures
        written@ == continuation_lines_spec(indent@, options::models(list@)),
{
    let ghost all = options::models(list@);
    let mut written = String::new();
    let mut i: usize = 0;
    while i < list.len()
        invariant
            i <= list@.len(),
            all == options::models(list@),
            written@ == continuation_lines_spec(indent@, all.take(i as int)),
        decreases list@.len() - i,
    {
        proof {
            assert(all.take(i + 1).drop_last() =~= all.take(i as int));
            assert(all.take(i + 1).last() == list@[i as int]@);
        }
        let line = continuation_line_text(indent, &list[i]);
        written.append(line.as_str());
        written.append("\n");
        i = i + 1;
    }
    assert(all.take(i as int) =~= all);
    written
}

// ---------------------------------------------------------------------------
// Laws
// ---------------------------------------------------------------------------

/// Without options, content stays as it is; with options, applying them all is
/// applying some of them and then the others
pub proof fn law_options_apply_in_order(
    list: Seq<Seq<char>>,
    first: Seq<OptionModel>,
    second: Seq<OptionModel>,
)
    ensures
        apply_all(list, Seq::empty()) == Ok::<_, MisfitModel>(list),
        apply_all(list, first + second) == match apply_all(list, first) {
            Ok(next) => apply_all(next, second),
            Err(error) => Err(error),
        },
    decreases first.len(),
{
    if first.len() == 0 {
        assert(first + second =~= second);
    } else {
        assert((first + second).drop_first() =~= first.drop_first() + second);
        assert((first + second)[0] == first[0]);
        if let Ok(next) = apply_option_spec(list, first[0]) {
            law_options_apply_in_order(next, first.drop_first(), second);
        }
    }
}

/// A `param` doesn't change the code
pub proof fn law_params_change_nothing(list: Seq<Seq<char>>, option: OptionModel)
    requires
        option.key == "param"@,
    ensures
        apply_option_spec(list, option) matches Ok(result) ==> result == list,
{
    reveal_strlit("param");
    reveal_strlit("remove-prefix");
    reveal_strlit("remove-suffix");
    reveal_strlit("strip-line-prefix");
    reveal_strlit("remove-lines-starting-with");
    reveal_strlit("remove-blank-lines");
    reveal_strlit("unindent-common");
    reveal_strlit("reindent");
    assert("param"@.len() != "remove-prefix"@.len());
    assert("param"@.len() != "remove-suffix"@.len());
    assert("param"@.len() != "strip-line-prefix"@.len());
    assert("param"@.len() != "remove-lines-starting-with"@.len());
    assert("param"@.len() != "remove-blank-lines"@.len());
    assert("param"@.len() != "unindent-common"@.len());
    assert("param"@.len() != "reindent"@.len());
}

} // verus!
