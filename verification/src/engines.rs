//! Calls into outside libraries, and what they are known to do.
//!
//! The patterns that are searched for here are of three shapes: literal texts
//! around names ([`wildcard_source`]), a choice of literal texts
//! ([`alternatives_source`]), and literal texts around values
//! ([`pattern_source`]). For these shapes the functions below say what is found.

use crate::bytes;
use crate::lines;
use crate::numbers;
use crate::text;
use vstd::prelude::*;

verus! {

// ---------------------------------------------------------------------------
// The regex crate
// ---------------------------------------------------------------------------

/// The characters that `regex` gives a meaning of their own
pub open spec fn is_regex_meta(c: char) -> bool {
    c == '\\' || c == '.' || c == '+' || c == '*' || c == '?' || c == '(' || c == ')' || c == '|'
        || c == '[' || c == ']' || c == '{' || c == '}' || c == '^' || c == '$' || c == '#' || c
        == '&' || c == '-' || c == '~'
}

/// `s` with a `\` before each character that has a meaning of its own
pub open spec fn regex_escaped(s: Seq<char>) -> Seq<char>
    decreases s.len(),
{
    if s.len() == 0 {
        Seq::empty()
    } else if is_regex_meta(s.last()) {
        regex_escaped(s.drop_last()).push('\\').push(s.last())
    } else {
        regex_escaped(s.drop_last()).push(s.last())
    }
}

/// `regex::escape` puts a `\` before each character that has a meaning of its own
/// in a pattern, and leaves the others as they are.
#[verifier::external_body]
pub(crate) fn regex_escape(literal: &str) -> (escaped: String)
    ensures
        escaped@ == regex_escaped(literal@),
{
    regex::escape(literal)
}

/// Why `regex::Regex::new` refuses a pattern, in its own words; none when it accepts it
pub uninterp spec fn regex_refusal(pattern: Seq<char>) -> Option<Seq<char>>;

/// Whether `regex::Regex::new` accepts a pattern
pub open spec fn regex_accepts(pattern: Seq<char>) -> bool {
    regex_refusal(pattern) is None
}

/// `regex::Regex::new`: whether it accepts the pattern, and the text of its error when
/// it doesn't, rest on the pattern alone.
#[verifier::external_body]
pub(crate) fn regex_compile(pattern: &str) -> (compiled: Result<(), String>)
    ensures
        match compiled {
            Ok(_) => regex_accepts(pattern@),
            Err(reason) => regex_refusal(pattern@) == Some(reason@),
        },
{
    match regex::Regex::new(pattern) {
        Ok(_) => Ok(()),
        Err(error) => Err(error.to_string()),
    }
}

/// What stands for `*` in a wildcard value
pub const NAME_PATTERN: &'static str = "[A-Za-z0-9_]+";

/// What names are made of: letters, digits and `_`
pub open spec fn is_name_char(c: char) -> bool {
    text::is_alphanumeric(c) || c == '_'
}

/// A name: letters, digits and `_`
pub open spec fn is_name(s: Seq<char>) -> bool {
    s.len() > 0 && forall|i: int| 0 <= i < s.len() ==> is_name_char(#[trigger] s[i])
}

/// A name with text before and after it
pub open spec fn around_name(before: Seq<char>, name: Seq<char>, after: Seq<char>) -> Seq<char> {
    before + name + after
}

/// Whether `s` is the literal `pieces`, with a name between each two
pub open spec fn stands_for(pieces: Seq<Seq<char>>, s: Seq<char>) -> bool
    decreases pieces.len(),
{
    if pieces.len() == 0 {
        false
    } else if pieces.len() == 1 {
        s == pieces[0]
    } else {
        exists|name: Seq<char>, rest: Seq<char>|
            s == #[trigger] around_name(pieces[0], name, rest) && is_name(name) && stands_for(
                pieces.drop_first(),
                rest,
            )
    }
}

/// The literal `pieces` as pattern text
pub open spec fn escaped_pieces(pieces: Seq<Seq<char>>) -> Seq<Seq<char>> {
    Seq::new(pieces.len(), |i: int| regex_escaped(pieces[i]))
}

/// The pattern for the literal `pieces`, with a name between each two
pub open spec fn wildcard_source(pieces: Seq<Seq<char>>) -> Seq<char> {
    lines::join(escaped_pieces(pieces), NAME_PATTERN@)
}

/// Whether a part of `s` from index `i` on is `pieces` with names between them
pub open spec fn stands_at(pieces: Seq<Seq<char>>, s: Seq<char>, i: int) -> bool {
    exists|j: int| i <= j <= s.len() && stands_for(pieces, #[trigger] s.subrange(i, j))
}

/// Whether a part of `s` is `pieces` with names between them
pub open spec fn stands_in(pieces: Seq<Seq<char>>, s: Seq<char>) -> bool {
    exists|i: int| 0 <= i <= s.len() && #[trigger] stands_at(pieces, s, i)
}

/// What stands before, in and after a match
pub type Found = (String, String, String);

/// The texts of a match
pub open spec fn found_view(found: Option<Found>) -> Option<(Seq<char>, Seq<char>, Seq<char>)> {
    match found {
        Some((before, matched, after)) => Some((before@, matched@, after@)),
        None => None,
    }
}

/// Whether `found` is the leftmost place in `s` where `pieces` stand with names
/// between them
pub open spec fn finds_wildcard(
    pieces: Seq<Seq<char>>,
    s: Seq<char>,
    found: Option<(Seq<char>, Seq<char>, Seq<char>)>,
) -> bool {
    match found {
        Some((before, matched, _)) => stands_for(pieces, matched) && (forall|i: int|
            0 <= i < before.len() ==> !#[trigger] stands_at(pieces, s, i)),
        None => !stands_in(pieces, s),
    }
}

/// What `regex::Regex::find` finds: the text before, in and after the match
pub uninterp spec fn regex_found(pattern: Seq<char>, haystack: Seq<char>) -> Option<
    (Seq<char>, Seq<char>, Seq<char>),
>;

/// `regex::Regex::find`, on the pattern compiled: the leftmost match, as the text
/// before it, the matched text and the text after it, which together are the text
/// searched. For the pattern of a wildcard the match is the first place where its
/// literal pieces stand with names between them, and there is none only when they
/// stand nowhere. The error is the text of `regex::Regex::new`'s.
#[verifier::external_body]
pub(crate) fn regex_find(pattern: &str, haystack: &str) -> (found: Result<
    Option<Found>,
    String,
>)
    ensures
        found is Ok == regex_accepts(pattern@),
        found matches Err(reason) ==> regex_refusal(pattern@) == Some(reason@),
        found matches Ok(found) ==> found_view(found) == regex_found(pattern@, haystack@),
        found matches Ok(Some((before, matched, after))) ==> before@ + matched@ + after@
            == haystack@,
        found matches Ok(found) ==> (forall|pieces: Seq<Seq<char>>|
            pieces.len() > 0 && pattern@ == #[trigger] wildcard_source(pieces) ==> finds_wildcard(
                pieces,
                haystack@,
                found_view(found),
            )),
{
    let compiled = regex::Regex::new(pattern).map_err(|error| error.to_string())?;
    match compiled.find(haystack) {
        Some(found) => Ok(
            Some(
                (
                    haystack[..found.start()].to_owned(),
                    found.as_str().to_owned(),
                    haystack[found.end()..].to_owned(),
                ),
            ),
        ),
        None => Ok(None),
    }
}

/// How many characters from index `i` on a name can have
pub open spec fn name_run(s: Seq<char>, i: int) -> nat
    decreases s.len() - i,
{
    if 0 <= i < s.len() && is_name_char(s[i]) {
        1 + name_run(s, i + 1)
    } else {
        0
    }
}

/// Where `pieces`, standing at index `i` with names between them, end: each name is as
/// long as the rest allows, the first before the others
pub open spec fn match_end(pieces: Seq<Seq<char>>, s: Seq<char>, i: int) -> Option<int>
    decreases pieces.len(), 0nat,
{
    let start = i + pieces[0].len();
    if pieces.len() == 0 || !text::occurs_at(s, pieces[0], i) {
        None
    } else if pieces.len() == 1 {
        Some(start)
    } else {
        name_end(pieces.drop_first(), s, start, name_run(s, start))
    }
}

/// Where `pieces` end after the longest name of up to `most` characters at index `start`
/// that they can stand after
pub open spec fn name_end(pieces: Seq<Seq<char>>, s: Seq<char>, start: int, most: nat) -> Option<int>
    decreases pieces.len(), most,
{
    if most == 0 {
        None
    } else {
        match match_end(pieces, s, start + most) {
            Some(end) => Some(end),
            None => name_end(pieces, s, start, (most - 1) as nat),
        }
    }
}

/// The places from index `from` on where `pieces` stand with names between them, from
/// left to right and without overlap
pub open spec fn wildcard_places(pieces: Seq<Seq<char>>, s: Seq<char>, from: int) -> Seq<(int, int)>
    decreases s.len() - from,
{
    if !(0 <= from < s.len()) {
        Seq::empty()
    } else {
        match match_end(pieces, s, from) {
            Some(end) => if from < end <= s.len() {
                seq![(from, end)] + wildcard_places(pieces, s, end)
            } else {
                wildcard_places(pieces, s, from + 1)
            },
            None => wildcard_places(pieces, s, from + 1),
        }
    }
}

/// The texts at places in `s`
pub open spec fn place_texts(s: Seq<char>, found: Seq<(int, int)>) -> Seq<Seq<char>> {
    Seq::new(found.len(), |k: int| s.subrange(found[k].0, found[k].1))
}

/// `regex::Regex::find_iter`, on the pattern of a wildcard compiled: the texts of the
/// successive matches that don't overlap, which are the places where its literal pieces
/// stand with names between them, from left to right, each name as long as the rest
/// allows. The error is the text of `regex::Regex::new`'s.
#[verifier::external_body]
pub(crate) fn regex_find_iter(pattern: &str, haystack: &str) -> (found: Result<
    Vec<String>,
    String,
>)
    requires
        exists|pieces: Seq<Seq<char>>|
            pieces.len() > 1 && pattern@ == #[trigger] wildcard_source(pieces),
    ensures
        found is Ok == regex_accepts(pattern@),
        found matches Err(reason) ==> regex_refusal(pattern@) == Some(reason@),
        found matches Ok(found) ==> (forall|pieces: Seq<Seq<char>>|
            pieces.len() > 1 && pattern@ == #[trigger] wildcard_source(pieces) ==> text::views(
                found@,
            ) == place_texts(haystack@, wildcard_places(pieces, haystack@, 0))),
{
    let compiled = regex::Regex::new(pattern).map_err(|error| error.to_string())?;
    Ok(compiled.find_iter(haystack).map(|found| found.as_str().to_owned()).collect())
}

// ---------------------------------------------------------------------------
// The fancy-regex crate
// ---------------------------------------------------------------------------

/// The characters that `fancy_regex` gives a meaning of their own
pub open spec fn is_fancy_meta(c: char) -> bool {
    c == '\\' || c == '.' || c == '+' || c == '*' || c == '?' || c == '(' || c == ')' || c == '|'
        || c == '[' || c == ']' || c == '{' || c == '}' || c == '^' || c == '$' || c == '#'
}

/// `s` with a `\` before each character that has a meaning of its own
pub open spec fn fancy_escaped(s: Seq<char>) -> Seq<char>
    decreases s.len(),
{
    if s.len() == 0 {
        Seq::empty()
    } else if is_fancy_meta(s.last()) {
        fancy_escaped(s.drop_last()).push('\\').push(s.last())
    } else {
        fancy_escaped(s.drop_last()).push(s.last())
    }
}

/// `fancy_regex::escape` puts a `\` before each character that has a meaning of its
/// own in a pattern, and leaves the others as they are.
#[verifier::external_body]
pub(crate) fn fancy_escape(literal: &str) -> (escaped: String)
    ensures
        escaped@ == fancy_escaped(literal@),
{
    fancy_regex::escape(literal).into_owned()
}

/// Why `fancy_regex::Regex::new` refuses a pattern, in its own words; none when it
/// accepts it
pub uninterp spec fn fancy_refusal(pattern: Seq<char>) -> Option<Seq<char>>;

/// Whether `fancy_regex::Regex::new` accepts a pattern
pub open spec fn fancy_accepts(pattern: Seq<char>) -> bool {
    fancy_refusal(pattern) is None
}

/// Whether a pattern is a choice of literal texts
pub open spec fn is_choice(pattern: Seq<char>) -> bool {
    exists|texts: Seq<Seq<char>>| pattern == #[trigger] alternatives_source(texts)
}

/// Whether a pattern is literal texts around values
pub open spec fn is_code_pattern(pattern: Seq<char>) -> bool {
    exists|segments: Seq<Segment>|
        in_sequence(segments) && pattern == #[trigger] pattern_source(segments)
}

/// `fancy_regex::Regex::new`: whether it accepts the pattern, and the text of its error
/// when it doesn't, rest on the pattern alone. Only the shapes of pattern that are
/// searched for here are compiled: they repeat nothing a given number of times, which
/// could be more often than a size can count.
#[verifier::external_body]
pub(crate) fn fancy_compile(pattern: &str) -> (compiled: Result<(), String>)
    requires
        is_choice(pattern@) || is_code_pattern(pattern@),
    ensures
        match compiled {
            Ok(_) => fancy_accepts(pattern@),
            Err(reason) => fancy_refusal(pattern@) == Some(reason@),
        },
{
    match fancy_regex::Regex::new(pattern) {
        Ok(_) => Ok(()),
        Err(error) => Err(error.to_string()),
    }
}

/// The literal texts as pattern text
pub open spec fn fancy_escaped_all(texts: Seq<Seq<char>>) -> Seq<Seq<char>> {
    Seq::new(texts.len(), |i: int| fancy_escaped(texts[i]))
}

/// The pattern for any one of the literal texts
pub open spec fn alternatives_source(texts: Seq<Seq<char>>) -> Seq<char> {
    "("@ + lines::join(fancy_escaped_all(texts), "|"@) + ")"@
}

/// The first of `texts` that `s` starts with
pub open spec fn first_at(texts: Seq<Seq<char>>, s: Seq<char>) -> Option<int>
    decreases texts.len(),
{
    if texts.len() == 0 {
        None
    } else if texts[0].is_prefix_of(s) {
        Some(0)
    } else {
        match first_at(texts.drop_first(), s) {
            Some(k) => Some(k + 1),
            None => None,
        }
    }
}

pub proof fn lemma_first_at(texts: Seq<Seq<char>>, s: Seq<char>)
    ensures
        first_at(texts, s) matches Some(k) ==> 0 <= k < texts.len() && texts[k].is_prefix_of(s)
            && (forall|j: int| 0 <= j < k ==> !(#[trigger] texts[j]).is_prefix_of(s)),
        first_at(texts, s) is None ==> (forall|j: int|
            0 <= j < texts.len() ==> !(#[trigger] texts[j]).is_prefix_of(s)),
    decreases texts.len(),
{
    if texts.len() > 0 && !texts[0].is_prefix_of(s) {
        let rest = texts.drop_first();
        lemma_first_at(rest, s);
        assert forall|j: int|
            0 <= j < texts.len() && (first_at(rest, s) matches Some(k) ==> j < k
                + 1) implies !(#[trigger] texts[j]).is_prefix_of(s) by {
            if j > 0 {
                assert(texts[j] == rest[j - 1]);
            }
        }
        if let Some(k) = first_at(rest, s) {
            assert(texts[k + 1] == rest[k]);
        }
    }
}

/// Whether there are texts, and none is empty
pub open spec fn all_nonempty(texts: Seq<Seq<char>>) -> bool {
    texts.len() > 0 && forall|i: int| 0 <= i < texts.len() ==> (#[trigger] texts[i]).len() > 0
}

/// The places from index `from` on where one of `texts` stands, from left to right
/// and without overlap: where several do, the first listed counts
pub open spec fn places(texts: Seq<Seq<char>>, s: Seq<char>, from: int) -> Seq<(int, int)>
    decreases s.len() - from,
{
    if !(0 <= from < s.len()) {
        Seq::empty()
    } else {
        proof {
            lemma_first_at(texts, s.skip(from));
        }
        match first_at(texts, s.skip(from)) {
            Some(k) => if texts[k].len() > 0 {
                seq![(from, from + texts[k].len())] + places(texts, s, from + texts[k].len())
            } else {
                places(texts, s, from + 1)
            },
            None => places(texts, s, from + 1),
        }
    }
}

/// A place as a range of bytes
pub open spec fn byte_place(s: Seq<char>, place: (int, int)) -> (int, int) {
    (bytes::byte_len(s.take(place.0)) as int, bytes::byte_len(s.take(place.1)) as int)
}

/// The byte ranges that `fancy_regex::Regex::find_iter` finds, or why it gives up, in its
/// own words
pub uninterp spec fn fancy_found_all(pattern: Seq<char>, haystack: Seq<char>) -> Result<
    Seq<(usize, usize)>,
    Seq<char>,
>;

/// `fancy_regex::Regex::find_iter`, on the pattern compiled: the byte ranges of the
/// successive matches that don't overlap. For a choice of literal texts, none of them
/// empty, these are the places where one of them stands, from left to right; where
/// several do, the first listed. The error is the text of `fancy_regex::Regex::new`'s,
/// or of the first that the search gives.
#[verifier::external_body]
pub(crate) fn fancy_find_iter(pattern: &str, haystack: &str) -> (found: Result<
    Vec<(usize, usize)>,
    String,
>)
    requires
        is_choice(pattern@),
    ensures
        match found {
            Ok(found) => fancy_accepts(pattern@) && fancy_found_all(pattern@, haystack@) == Ok::<
                _,
                Seq<char>,
            >(found@),
            Err(reason) => if fancy_accepts(pattern@) {
                fancy_found_all(pattern@, haystack@) == Err::<Seq<(usize, usize)>, _>(reason@)
            } else {
                fancy_refusal(pattern@) == Some(reason@)
            },
        },
        found matches Ok(found) ==> (forall|texts: Seq<Seq<char>>|
            all_nonempty(texts) && pattern@ == #[trigger] alternatives_source(texts) ==> {
                let expected = places(texts, haystack@, 0);
                &&& found@.len() == expected.len()
                &&& forall|i: int|
                    0 <= i < found@.len() ==> (
                    #[trigger] found@[i].0 as int, found@[i].1 as int) == byte_place(
                        haystack@,
                        expected[i],
                    )
            }),
{
    let compiled = fancy_regex::Regex::new(pattern).map_err(|error| error.to_string())?;
    let mut found: Vec<(usize, usize)> = Vec::new();
    for one in compiled.find_iter(haystack) {
        let one = one.map_err(|error| error.to_string())?;
        found.push((one.start(), one.end()));
    }
    Ok(found)
}

/// A part of a pattern: literal text, a value, or a value that came before
pub enum Segment {
    Text(Seq<char>),
    Value(nat),
    Again(nat),
}

/// How many values there are in a pattern
pub open spec fn value_count(segments: Seq<Segment>) -> nat
    decreases segments.len(),
{
    if segments.len() == 0 {
        0
    } else if segments.last() is Value {
        value_count(segments.drop_last()) + 1
    } else {
        value_count(segments.drop_last())
    }
}

/// Whether values are numbered in order, and come again only after they came
pub open spec fn in_sequence(segments: Seq<Segment>) -> bool
    decreases segments.len(),
{
    segments.len() > 0 ==> in_sequence(segments.drop_last()) && match segments.last() {
        Segment::Text(_) => true,
        Segment::Value(k) => k == value_count(segments.drop_last()),
        Segment::Again(k) => k < value_count(segments.drop_last()),
    }
}

/// The name of the group of value `k`
pub open spec fn group_name(k: nat) -> Seq<char> {
    "p"@ + numbers::decimal_spec(k)
}

/// The names of the groups of the first `count` values
pub open spec fn group_names(count: nat) -> Seq<Seq<char>> {
    Seq::new(count, |k: int| group_name(k as nat))
}

/// A part of a pattern, as pattern text: a value is any text on a line
pub open spec fn segment_source(segment: Segment) -> Seq<char> {
    match segment {
        Segment::Text(text) => fancy_escaped(text),
        Segment::Value(k) => "(?<"@ + group_name(k) + ">[^\\n]*?)"@,
        Segment::Again(k) => "\\k<"@ + group_name(k) + ">"@,
    }
}

/// The parts of a pattern, as pattern text
pub open spec fn segment_sources(segments: Seq<Segment>) -> Seq<char>
    decreases segments.len(),
{
    if segments.len() == 0 {
        Seq::empty()
    } else {
        segment_sources(segments.drop_last()) + segment_source(segments.last())
    }
}

/// The pattern that a whole text has to be
pub open spec fn pattern_source(segments: Seq<Segment>) -> Seq<char> {
    "\\A"@ + segment_sources(segments) + "\\z"@
}

/// The text a pattern is with the given values
pub open spec fn filled(segments: Seq<Segment>, values: Seq<Seq<char>>) -> Seq<char>
    decreases segments.len(),
{
    if segments.len() == 0 {
        Seq::empty()
    } else {
        filled(segments.drop_last(), values) + match segments.last() {
            Segment::Text(text) => text,
            Segment::Value(k) => values[k as int],
            Segment::Again(k) => values[k as int],
        }
    }
}

/// Whether `values` are values of a pattern: as many, and each on one line
pub open spec fn are_values(segments: Seq<Segment>, values: Seq<Seq<char>>) -> bool {
    &&& values.len() == value_count(segments)
    &&& forall|k: int| 0 <= k < values.len() ==> !(#[trigger] values[k]).contains('\n')
}

/// The texts of groups that took part in a match
pub open spec fn group_texts(groups: Seq<Option<String>>) -> Seq<Option<Seq<char>>> {
    Seq::new(groups.len(), |k: int| text::option_view(groups[k]))
}

/// Whether groups are the values that make the pattern the whole text
pub open spec fn captures_values(
    segments: Seq<Segment>,
    haystack: Seq<char>,
    groups: Option<Seq<Option<Seq<char>>>>,
) -> bool {
    match groups {
        Some(groups) => {
            let values = Seq::new(groups.len(), |k: int| groups[k]->0);
            &&& forall|k: int| 0 <= k < groups.len() ==> #[trigger] groups[k] is Some
            &&& are_values(segments, values)
            &&& filled(segments, values) == haystack
        },
        None => forall|values: Seq<Seq<char>>|
            are_values(segments, values) ==> #[trigger] filled(segments, values) != haystack,
    }
}

/// What the named groups of `fancy_regex::Regex::captures` hold, none when it finds no
/// match; or why it gives up, in its own words
pub uninterp spec fn fancy_captured(
    pattern: Seq<char>,
    groups: Seq<Seq<char>>,
    haystack: Seq<char>,
) -> Result<Option<Seq<Option<Seq<char>>>>, Seq<char>>;

/// `fancy_regex::Regex::captures` and `Captures::name`, on the pattern compiled: the
/// text of each named group in the leftmost match, none for one that took no part.
/// For literal texts around values that have to be the whole text, the groups of a
/// match are values that make it so, and there is no match only when none do. The error
/// is the text of `fancy_regex::Regex::new`'s, or of the search's.
#[verifier::external_body]
pub(crate) fn fancy_captures(pattern: &str, groups: &Vec<String>, haystack: &str) -> (captured:
    Result<Option<Vec<Option<String>>>, String>)
    requires
        is_code_pattern(pattern@),
    ensures
        match captured {
            Ok(None) => fancy_accepts(pattern@) && fancy_captured(
                pattern@,
                text::views(groups@),
                haystack@,
            ) == Ok::<_, Seq<char>>(None::<Seq<Option<Seq<char>>>>),
            Ok(Some(found)) => fancy_accepts(pattern@) && fancy_captured(
                pattern@,
                text::views(groups@),
                haystack@,
            ) == Ok::<_, Seq<char>>(Some(group_texts(found@))),
            Err(reason) => if fancy_accepts(pattern@) {
                fancy_captured(pattern@, text::views(groups@), haystack@) == Err::<
                    Option<Seq<Option<Seq<char>>>>,
                    _,
                >(reason@)
            } else {
                fancy_refusal(pattern@) == Some(reason@)
            },
        },
        captured matches Ok(found) ==> (forall|segments: Seq<Segment>|
            in_sequence(segments) && pattern@ == #[trigger] pattern_source(segments)
                && text::views(groups@) == group_names(value_count(segments)) ==> captures_values(
                segments,
                haystack@,
                match found {
                    Some(found) => Some(group_texts(found@)),
                    None => None,
                },
            )),
{
    let compiled = fancy_regex::Regex::new(pattern).map_err(|error| error.to_string())?;
    match compiled.captures(haystack).map_err(|error| error.to_string())? {
        Some(found) => Ok(
            Some(
                groups.iter().map(
                    |group| found.name(group).map(|value| value.as_str().to_owned()),
                ).collect(),
            ),
        ),
        None => Ok(None),
    }
}

// ---------------------------------------------------------------------------
// The serde_yaml crate
// ---------------------------------------------------------------------------

/// The text under two keys of a YAML document, none when there is no text there; or why
/// `serde_yaml` can't read it, in its own words
pub uninterp spec fn yaml_text_of(
    document: Seq<char>,
    first: Seq<char>,
    second: Seq<char>,
) -> Result<Option<Seq<char>>, Seq<char>>;

/// `serde_yaml::from_str` into a `serde_yaml::Value`, and `Value::get` and
/// `Value::as_str` on it: the text under `second` under `first`, or the text of the
/// error, rests on the document and the keys alone.
#[verifier::external_body]
pub(crate) fn yaml_text(document: &str, first: &str, second: &str) -> (found: Result<
    Option<String>,
    String,
>)
    ensures
        match found {
            Ok(found) => yaml_text_of(document@, first@, second@) == Ok::<_, Seq<char>>(
                text::option_view(found),
            ),
            Err(reason) => yaml_text_of(document@, first@, second@) == Err::<
                Option<Seq<char>>,
                _,
            >(reason@),
        },
{
    let parsed = serde_yaml::from_str(document);
    let value: serde_yaml::Value = parsed.map_err(|error: serde_yaml::Error| error.to_string())?;
    let inner = value.get(first).and_then(|inner| inner.get(second));
    Ok(inner.and_then(serde_yaml::Value::as_str).map(str::to_owned))
}

/// The texts of a list of optional strings
pub open spec fn key_views(keys: Seq<Option<String>>) -> Seq<Option<Seq<char>>> {
    Seq::new(keys.len(), |i: int| text::option_view(keys[i]))
}

/// The keys of the mapping under two keys of a YAML document, none for one that is no
/// text, and none at all when there is no mapping there; or why `serde_yaml` can't read
/// it, in its own words
pub uninterp spec fn yaml_keys_of(
    document: Seq<char>,
    first: Seq<char>,
    second: Seq<char>,
) -> Result<Option<Seq<Option<Seq<char>>>>, Seq<char>>;

/// `serde_yaml::from_str` into a `serde_yaml::Value`, and `Value::get`,
/// `Value::as_mapping` and `Mapping::keys` on it: the keys of the mapping under
/// `second` under `first`, in order, or the text of the error, rest on the document and
/// the keys alone.
#[verifier::external_body]
pub(crate) fn yaml_keys(document: &str, first: &str, second: &str) -> (found: Result<
    Option<Vec<Option<String>>>,
    String,
>)
    ensures
        match found {
            Ok(Some(found)) => yaml_keys_of(document@, first@, second@) == Ok::<_, Seq<char>>(
                Some(key_views(found@)),
            ),
            Ok(None) => yaml_keys_of(document@, first@, second@) == Ok::<_, Seq<char>>(
                None::<Seq<Option<Seq<char>>>>,
            ),
            Err(reason) => yaml_keys_of(document@, first@, second@) == Err::<
                Option<Seq<Option<Seq<char>>>>,
                _,
            >(reason@),
        },
{
    let parsed = serde_yaml::from_str(document);
    let value: serde_yaml::Value = parsed.map_err(|error: serde_yaml::Error| error.to_string())?;
    let inner = value.get(first).and_then(|inner| inner.get(second));
    Ok(
        inner.and_then(serde_yaml::Value::as_mapping).map(
            |mapping| mapping.keys().map(|key| key.as_str().map(str::to_owned)).collect(),
        ),
    )
}

// ---------------------------------------------------------------------------
// similar
// ---------------------------------------------------------------------------

/// What happens to a line between two texts
#[derive(Clone, Copy, Debug, PartialEq, Eq, Structural)]
pub enum LineChange {
    Equal,
    /// Only the first text has it
    Delete,
    /// Only the second text has it
    Insert,
}

/// What happens to each line between two texts, as a line diff of them lists it
pub uninterp spec fn line_changes_of(first: Seq<char>, second: Seq<char>) -> Seq<LineChange>;

/// `similar::TextDiff::from_lines` and `iter_all_changes`, each change by its tag: the
/// changes rest on the two texts alone, as no deadline is set.
#[verifier::external_body]
pub(crate) fn line_changes(first: &str, second: &str) -> (changes: Vec<LineChange>)
    ensures
        changes@ == line_changes_of(first@, second@),
{
    similar::TextDiff::from_lines(first, second)
        .iter_all_changes()
        .map(|change| match change.tag() {
            similar::ChangeTag::Equal => LineChange::Equal,
            similar::ChangeTag::Delete => LineChange::Delete,
            similar::ChangeTag::Insert => LineChange::Insert,
        })
        .collect()
}

/// A line diff of two texts in the unified format
pub uninterp spec fn unified_diff_of(
    first: Seq<char>,
    second: Seq<char>,
    first_label: Seq<char>,
    second_label: Seq<char>,
    radius: nat,
) -> Seq<char>;

/// `similar::TextDiff::from_lines` and `unified_diff`, with a context radius and a
/// header: what is shown rests on the texts, the labels and the radius alone. It counts
/// with twice the radius.
#[verifier::external_body]
pub(crate) fn unified_diff(
    first: &str,
    second: &str,
    first_label: &str,
    second_label: &str,
    radius: usize,
) -> (diff: String)
    requires
        radius <= usize::MAX / 2,
    ensures
        diff@ == unified_diff_of(first@, second@, first_label@, second_label@, radius as nat),
{
    similar::TextDiff::from_lines(first, second)
        .unified_diff()
        .context_radius(radius)
        .header(first_label, second_label)
        .to_string()
}

} // verus!
