//! Applying a lightbulb's changes to a file's text.

use crate::apply;
use crate::bytes;
use crate::lightbulb;
use crate::lightbulb::FixModel;
use crate::lightbulb::LightbulbFix;
use crate::lightbulb::LightbulbPlan;
use crate::lightbulb::PlanModel;
use crate::lines;
use crate::marker_laws;
use crate::markers;
use crate::markers::HeaderModel;
use crate::markers::Markers;
use crate::markers::MarkersModel;
use crate::numbers;
use crate::options;
use crate::options::MarkerOption;
use crate::options::OptionModel;
use crate::text;
use crate::text::CharClass;
use vstd::prelude::*;

verus! {

// ---------------------------------------------------------------------------
// Splitting text
// ---------------------------------------------------------------------------

/// The error for a byte offset that splits no text
pub open spec fn byte_error(offset: nat) -> Seq<char> {
    "byte "@ + numbers::decimal_spec(offset) + " is outside the text or inside a character"@
}

/// `s` split at byte `offset`
pub open spec fn split_at_spec(s: Seq<char>, offset: nat) -> Result<
    (Seq<char>, Seq<char>),
    Seq<char>,
> {
    if bytes::is_boundary(s, offset as int) {
        Ok((bytes::before_byte(s, offset as int), bytes::from_byte(s, offset as int)))
    } else {
        Err(byte_error(offset))
    }
}

/// `text` split at byte `byte_offset`
pub fn split_at_byte(text: &str, byte_offset: usize) -> (parts: Result<(String, String), String>)
    ensures
        match parts {
            Ok((before, after)) => split_at_spec(text@, byte_offset as nat) == Ok::<_, Seq<char>>(
                (before@, after@),
            ) && before@ + after@ == text@,
            Err(error) => split_at_spec(text@, byte_offset as nat) == Err::<
                (Seq<char>, Seq<char>),
                _,
            >(error@),
        },
{
    match bytes::split_at(text, byte_offset) {
        Some(parts) => {
            proof {
                bytes::lemma_boundary(text@, byte_offset as int);
            }
            Ok(parts)
        },
        None => {
            let number = numbers::decimal(byte_offset);
            Err(
                text::surround(
                    "byte ",
                    number.as_str(),
                    " is outside the text or inside a character",
                ),
            )
        },
    }
}

/// `s` around the bytes from `start` up to `end`: (before, removed, after)
pub open spec fn split_around_spec(s: Seq<char>, start: nat, end: nat) -> Result<
    (Seq<char>, Seq<char>, Seq<char>),
    Seq<char>,
> {
    match split_at_spec(s, start) {
        Err(error) => Err("splitting at the start of the range"@ + ": "@ + error),
        Ok((before, rest)) => if end < start {
            Err("range ends before it starts"@)
        } else {
            match split_at_spec(rest, (end - start) as nat) {
                Err(error) => Err("splitting at the end of the range"@ + ": "@ + error),
                Ok((removed, after)) => Ok((before, removed, after)),
            }
        },
    }
}

/// `text` without the bytes `range_start..range_end`: (before, removed, after), which
/// together are `text`
pub fn split_around_range(text: &str, range_start: usize, range_end: usize) -> (parts: Result<
    (String, String, String),
    String,
>)
    ensures
        match parts {
            Ok((before, removed, after)) => split_around_spec(
                text@,
                range_start as nat,
                range_end as nat,
            ) == Ok::<_, Seq<char>>((before@, removed@, after@)) && before@ + removed@ + after@
                == text@,
            Err(error) => split_around_spec(text@, range_start as nat, range_end as nat) == Err::<
                (Seq<char>, Seq<char>, Seq<char>),
                _,
            >(error@),
        },
{
    let (before, rest) = match split_at_byte(text, range_start) {
        Ok(parts) => parts,
        Err(error) => {
            return Err(lightbulb::error_in("splitting at the start of the range", error));
        },
    };
    if range_end < range_start {
        return Err("range ends before it starts".to_owned());
    }
    match split_at_byte(rest.as_str(), range_end - range_start) {
        Ok((removed, after)) => {
            assert(before@ + removed@ + after@ =~= before@ + (removed@ + after@));
            Ok((before, removed, after))
        },
        Err(error) => Err(lightbulb::error_in("splitting at the end of the range", error)),
    }
}

// ---------------------------------------------------------------------------
// Rewriting marked code
// ---------------------------------------------------------------------------

/// A change to marked code
pub enum Rewrite {
    /// Remove a leading YAML document marker
    RemoveDashes,
    /// Add a leading YAML document marker
    AddDashes,
    /// End with this many newlines
    Newlines(usize),
}

/// Marked code with a change made to it
pub open spec fn rewritten(rewrite: Rewrite, region: Seq<char>) -> Seq<char> {
    match rewrite {
        Rewrite::RemoveDashes => apply::unprefixed(region, "---\n"@),
        Rewrite::AddDashes => "---\n"@ + region,
        Rewrite::Newlines(count) => lightbulb::with_newlines(region, count as nat),
    }
}

impl Rewrite {
    /// Marked code with this change made to it
    pub fn apply_to(&self, region: &str) -> (result: String)
        ensures
            result@ == rewritten(*self, region@),
    {
        match self {
            Rewrite::RemoveDashes => match text::strip_prefix(region, "---\n") {
                Some(rest) => rest,
                None => region.to_owned(),
            },
            Rewrite::AddDashes => {
                let mut result = "---\n".to_owned();
                result.append(region);
                result
            },
            Rewrite::Newlines(count) => lightbulb::set_newlines(region, *count),
        }
    }
}

/// `s` with the marked lines of a section rewritten
pub open spec fn edit_section_spec(
    s: Seq<char>,
    found: MarkersModel,
    name: Seq<char>,
    rewrite: Rewrite,
) -> Result<Seq<char>, Seq<char>> {
    match markers::section_spec(found, name) {
        None => Err("section \""@ + name + "\" not found"@),
        Some(section) => match split_around_spec(s, section.content_from, section.content_to) {
            Err(error) => Err("locating the section"@ + ": "@ + error),
            Ok((before, region, after)) => Ok(before + rewritten(rewrite, region) + after),
        },
    }
}

/// Whether `result` is the outcome `expected`
pub open spec fn text_is(
    expected: Result<Seq<char>, Seq<char>>,
    result: Result<String, String>,
) -> bool {
    match result {
        Ok(result) => expected == Ok::<_, Seq<char>>(result@),
        Err(error) => expected == Err::<Seq<char>, _>(error@),
    }
}

/// Rewrites the marked lines of section `section_name`, keeping its markers where they are
pub fn edit_section(text: &str, found_markers: &Markers, section_name: &str, rewrite: &Rewrite) -> (
    result: Result<String, String>)
    ensures
        text_is(edit_section_spec(text@, found_markers@, section_name@, *rewrite), result),
{
    match found_markers.section(section_name) {
        None => Err(text::surround("section \"", section_name, "\" not found")),
        Some(section) => match split_around_range(
            text,
            section.content_from,
            section.content_to,
        ) {
            Err(error) => Err(lightbulb::error_in("locating the section", error)),
            Ok((before, region, after)) => {
                let edited = rewrite.apply_to(region.as_str());
                Ok(text::surround(before.as_str(), edited.as_str(), after.as_str()))
            },
        },
    }
}

/// `s` with `inserted` after its first `count` lines
pub open spec fn insert_after_lines(s: Seq<char>, count: nat, inserted: Seq<char>) -> Seq<char> {
    let at = lines::lines_length(s, count) as int;
    s.take(at) + inserted + s.skip(at)
}

/// `s` with all lines but the file marker's rewritten, and the marker back after the
/// same number of lines
pub open spec fn edit_file_spec(s: Seq<char>, found: MarkersModel, rewrite: Rewrite) -> Result<
    Seq<char>,
    Seq<char>,
> {
    match found.file {
        None => Err("file marker not found"@),
        Some(header) => match split_around_spec(s, header.marker_from, header.marker_to) {
            Err(error) => Err("locating the file marker"@ + ": "@ + error),
            Ok((before, marker, after)) => Ok(
                insert_after_lines(
                    rewritten(rewrite, before + after),
                    (header.first_line - 1) as nat,
                    marker,
                ),
            ),
        },
    }
}

/// Rewrites the whole file around its file marker, keeping the marker where it is
pub fn edit_marked_file(text: &str, found_markers: &Markers, rewrite: &Rewrite) -> (result: Result<
    String,
    String,
>)
    requires
        found_markers.file matches Some(header) ==> header.first_line > 0,
    ensures
        text_is(edit_file_spec(text@, found_markers@, *rewrite), result),
{
    match &found_markers.file {
        None => Err("file marker not found".to_owned()),
        Some(header) => match split_around_range(text, header.marker_from, header.marker_to) {
            Err(error) => Err(lightbulb::error_in("locating the file marker", error)),
            Ok((before, marker, after)) => {
                let mut around = before;
                around.append(after.as_str());
                let edited = rewrite.apply_to(around.as_str());
                // Back where it was: after the same number of lines
                let chars = text::chars_of(edited.as_str());
                let at = lines::after_lines(&chars, header.first_line - 1);
                let first = text::text_of(&chars, 0, at);
                let last = text::text_of(&chars, at, chars.len());
                proof {
                    assert(first@ =~= edited@.take(at as int));
                    assert(last@ =~= edited@.skip(at as int));
                }
                Ok(text::surround(first.as_str(), marker.as_str(), last.as_str()))
            },
        },
    }
}

/// `s` with the marked lines of a section (or the whole file around its file marker)
/// rewritten
pub open spec fn edit_region_spec(
    s: Seq<char>,
    section: Option<Seq<char>>,
    rewrite: Rewrite,
) -> Result<Seq<char>, Seq<char>> {
    let found = markers::markers_spec(s);
    match section {
        Some(name) => edit_section_spec(s, found, name, rewrite),
        None => edit_file_spec(s, found, rewrite),
    }
}

/// Rewrites the marked lines of a section (or the whole file around its file
/// marker), keeping the markers where they are
pub fn edit_region(text: &str, section: &Option<String>, rewrite: &Rewrite) -> (result: Result<
    String,
    String,
>)
    ensures
        text_is(edit_region_spec(text@, text::option_view(*section), *rewrite), result),
{
    let found_markers = markers::parse_markers(text);
    proof {
        marker_laws::law_markers_are_whole_lines(text@);
    }
    match section {
        Some(name) => edit_section(text, &found_markers, name.as_str(), rewrite),
        None => edit_marked_file(text, &found_markers, rewrite),
    }
}

// ---------------------------------------------------------------------------
// Markers
// ---------------------------------------------------------------------------

/// The marker of a section, or of the file
pub open spec fn marker_of(found: MarkersModel, section: Option<Seq<char>>) -> Option<HeaderModel> {
    match section {
        Some(name) => match markers::section_spec(found, name) {
            Some(section) => Some(section.header),
            None => None,
        },
        None => found.file,
    }
}

/// A line feed, unless `s` ends with one
pub open spec fn separator_after(s: Seq<char>) -> Seq<char> {
    if "\n"@.is_suffix_of(s) {
        ""@
    } else {
        "\n"@
    }
}

/// `s` with options added to a marker as continuation lines
pub open spec fn extend_marker_spec(
    s: Seq<char>,
    section: Option<Seq<char>>,
    added: Seq<OptionModel>,
) -> Result<Seq<char>, Seq<char>> {
    match marker_of(markers::markers_spec(s), section) {
        None => Err("marker not found"@),
        Some(header) => match split_around_spec(s, header.marker_from, header.marker_to) {
            Err(error) => Err("locating the marker"@ + ": "@ + error),
            Ok((before, marker, after)) => {
                let indent = marker.take(text::span(marker, CharClass::Blank) as int);
                Ok(
                    before + marker + separator_after(before + marker)
                        + apply::continuation_lines_spec(indent, added) + after,
                )
            },
        },
    }
}

/// Adds options to a section's start marker (or the file marker) as continuation lines
pub fn extend_marker(text: &str, section: &Option<String>, added: &Vec<MarkerOption>) -> (result:
    Result<String, String>)
    ensures
        text_is(
            extend_marker_spec(text@, text::option_view(*section), options::models(added@)),
            result,
        ),
{
    let found_markers = markers::parse_markers(text);
    let header = match section {
        Some(name) => match found_markers.section(name.as_str()) {
            Some(found) => found.header.clone(),
            None => {
                return Err("marker not found".to_owned());
            },
        },
        None => match &found_markers.file {
            Some(header) => header.clone(),
            None => {
                return Err("marker not found".to_owned());
            },
        },
    };
    match split_around_range(text, header.marker_from, header.marker_to) {
        Err(error) => Err(lightbulb::error_in("locating the marker", error)),
        Ok((before, marker, after)) => {
            let chars = text::chars_of(marker.as_str());
            let width = text::span_end(&chars, 0, CharClass::Blank);
            let indent = text::text_of(&chars, 0, width);
            proof {
                assert(chars@.skip(0) =~= chars@);
                assert(indent@ =~= marker@.take(width as int));
            }
            let mut result = before;
            result.append(marker.as_str());
            let separator = if text::ends_with(result.as_str(), "\n") {
                ""
            } else {
                "\n"
            };
            let continuations = apply::continuation_lines(indent.as_str(), added);
            result.append(separator);
            result.append(continuations.as_str());
            result.append(after.as_str());
            Ok(result)
        },
    }
}

/// Where a file marker goes: after a shebang line, or at the top
pub open spec fn marker_place(s: Seq<char>) -> int {
    if "#!"@.is_prefix_of(s) {
        match text::find_spec(s, "\n"@) {
            Some(i) => i + 1,
            None => s.len() as int,
        }
    } else {
        0
    }
}

/// The lines of a file marker with options
pub open spec fn file_marker_lines(doc_options: Seq<OptionModel>) -> Seq<char> {
    "# "@ + markers::file_marker_text() + "\n"@ + apply::continuation_lines_spec(
        ""@,
        doc_options,
    )
}

/// Whether `s` is nothing but a shebang line, without a line end
pub open spec fn is_bare_shebang(s: Seq<char>) -> bool {
    "#!"@.is_prefix_of(s) && !s.contains('\n')
}

/// `s`, with a line end where it is nothing but a shebang line
pub open spec fn shebang_ended(s: Seq<char>) -> Seq<char> {
    if is_bare_shebang(s) {
        s + "\n"@
    } else {
        s
    }
}

/// `s` with a file marker, on lines of its own
pub open spec fn mark_file_spec(s: Seq<char>, doc_options: Seq<OptionModel>) -> Seq<char> {
    let whole = shebang_ended(s);
    whole.take(marker_place(whole)) + file_marker_lines(doc_options) + whole.skip(
        marker_place(whole),
    )
}

proof fn lemma_marker_place_of(s: Seq<char>)
    ensures
        ({
            let whole = shebang_ended(s);
            &&& s.contains('\n') <==> text::find_spec(s, "\n"@) is Some
            &&& text::find_spec(s, "\n"@) matches Some(i) ==> 0 <= i < s.len() && s[i] == '\n'
            &&& is_bare_shebang(s) ==> marker_place(whole) == whole.len()
        }),
{
    reveal_strlit("\n");
    text::lemma_find(s, "\n"@);
    if s.contains('\n') {
        let k = choose|k: int| 0 <= k < s.len() && s[k] == '\n';
        assert(s.subrange(k, k + 1) =~= "\n"@);
        assert(text::occurs_at(s, "\n"@, k));
    }
    if let Some(i) = text::find_spec(s, "\n"@) {
        assert(s.subrange(i, i + 1)[0] == '\n');
        assert(s[i] == '\n');
    }
    if is_bare_shebang(s) {
        let whole = shebang_ended(s);
        reveal_strlit("#!");
        text::lemma_find(whole, "\n"@);
        assert(whole.take(2) =~= s.take(2));
        assert("#!"@.is_prefix_of(whole));
        assert(whole.subrange(s.len() as int, s.len() as int + 1) =~= "\n"@);
        assert(text::occurs_at(whole, "\n"@, s.len() as int));
        let i = text::find_spec(whole, "\n"@)->0;
        assert(whole.subrange(i, i + 1)[0] == whole[i]);
        if i < s.len() {
            assert(s[i] == '\n');
        }
    }
}

/// Adds a file marker (with the doc options) at the top of `text`, after any shebang line
pub fn mark_file(text: &str, doc_options: &Vec<MarkerOption>) -> (marked: String)
    ensures
        marked@ == mark_file_spec(text@, options::models(doc_options@)),
{
    proof {
        lemma_marker_place_of(text@);
    }
    let chars = text::chars_of(text);
    let mut at: usize = 0;
    let mut line_end = "";
    if text::starts_with(text, "#!") {
        at = match text::find(text, "\n") {
            Some(i) => {
                assert(i < chars.len());
                i + 1
            },
            None => {
                line_end = "\n";
                chars.len()
            },
        };
    }
    let head = text::text_of(&chars, 0, at);
    let before = text::surround(head.as_str(), line_end, "");
    let after = text::text_of(&chars, at, chars.len());
    proof {
        let whole = shebang_ended(text@);
        reveal_strlit("");
        reveal_strlit("\n");
        assert(before@ =~= whole.take(marker_place(whole)));
        assert(after@ =~= whole.skip(marker_place(whole)));
    }
    let marker = markers::file_marker();
    let mut marker_lines = text::surround("# ", marker.as_str(), "\n");
    let continuations = apply::continuation_lines("", doc_options);
    marker_lines.append(continuations.as_str());
    text::surround(before.as_str(), marker_lines.as_str(), after.as_str())
}

/// The indentation of the first of some lines
pub open spec fn indent_of(list: Seq<Seq<char>>) -> Seq<char> {
    if list.len() > 0 {
        list[0].take(text::span(list[0], CharClass::White) as int)
    } else {
        Seq::empty()
    }
}

/// Options as continuation lines, without their line ends
pub open spec fn option_lines(indent: Seq<char>, list: Seq<OptionModel>) -> Seq<Seq<char>> {
    Seq::new(list.len(), |i: int| apply::continuation_line(indent, list[i]))
}

/// The lines of a section's start marker with options
pub open spec fn start_lines(indent: Seq<char>, name: Seq<char>, list: Seq<OptionModel>) -> Seq<
    Seq<char>,
> {
    seq![indent + "# "@ + markers::section_start_text(name)] + option_lines(indent, list)
}

/// The line of a section's end marker
pub open spec fn end_marker_line(indent: Seq<char>, name: Seq<char>) -> Seq<char> {
    indent + "# "@ + markers::section_end_text(name)
}

/// Lines with markers around `count` of them, from line `first` on
pub open spec fn marked_lines(
    list: Seq<Seq<char>>,
    name: Seq<char>,
    first: int,
    count: int,
    added: Seq<OptionModel>,
) -> Seq<Seq<char>> {
    let indent = indent_of(list.skip(first));
    list.take(first) + start_lines(indent, name, added) + list.subrange(first, first + count)
        + seq![end_marker_line(indent, name)] + list.skip(first + count)
}

/// `s` with markers around `line_count` lines from (1-based) `first_line` on
pub open spec fn mark_section_spec(
    s: Seq<char>,
    name: Seq<char>,
    first_line: nat,
    line_count: nat,
    added: Seq<OptionModel>,
) -> Result<Seq<char>, Seq<char>> {
    let list = lines::split(s, '\n');
    if first_line >= 1 && first_line - 1 + line_count <= list.len() {
        Ok(
            lines::join(
                marked_lines(list, name, first_line - 1, line_count as int, added),
                "\n"@,
            ),
        )
    } else {
        Err(
            "the "@ + numbers::decimal_spec(line_count) + " lines from line "@
                + numbers::decimal_spec(first_line) + " aren't all in the file"@,
        )
    }
}

/// Adds lines `from` up to `to` of `list` to `target`
fn push_lines(target: &mut Vec<String>, list: &Vec<String>, from: usize, to: usize)
    requires
        from <= to <= list@.len(),
    ensures
        text::views(final(target)@) == text::views(old(target)@) + text::views(list@).subrange(
            from as int,
            to as int,
        ),
{
    let ghost before = text::views(target@);
    let ghost views = text::views(list@);
    let mut i: usize = from;
    assert(before + views.subrange(from as int, from as int) =~= before);
    while i < to
        invariant
            from <= i <= to <= list@.len(),
            views == text::views(list@),
            text::views(target@) == before + views.subrange(from as int, i as int),
        decreases to - i,
    {
        let line = list[i].clone();
        proof {
            text::lemma_views_push(target@, line);
            assert((before + views.subrange(from as int, i as int)).push(line@) =~= before
                + views.subrange(from as int, i + 1));
        }
        target.push(line);
        i = i + 1;
    }
}

/// Adds options as continuation lines to `target`
fn push_option_lines(target: &mut Vec<String>, indent: &str, list: &Vec<MarkerOption>)
    ensures
        text::views(final(target)@) == text::views(old(target)@) + option_lines(
            indent@,
            options::models(list@),
        ),
{
    let ghost before = text::views(target@);
    let ghost all = option_lines(indent@, options::models(list@));
    let mut i: usize = 0;
    assert(before + all.take(0) =~= before);
    while i < list.len()
        invariant
            i <= list@.len(),
            all == option_lines(indent@, options::models(list@)),
            text::views(target@) == before + all.take(i as int),
        decreases list@.len() - i,
    {
        let line = apply::continuation_line_text(indent, &list[i]);
        proof {
            text::lemma_views_push(target@, line);
            assert(line@ == all[i as int]);
            assert((before + all.take(i as int)).push(line@) =~= before + all.take(i + 1));
        }
        target.push(line);
        i = i + 1;
    }
    assert(all.take(i as int) =~= all);
}

/// Surrounds the `line_count` lines from (1-based) `first_line` with markers making them section `section_name`
pub fn mark_section(
    text: &str,
    section_name: &str,
    first_line: usize,
    line_count: usize,
    added: &Vec<MarkerOption>,
) -> (result: Result<String, String>)
    ensures
        text_is(
            mark_section_spec(
                text@,
                section_name@,
                first_line as nat,
                line_count as nat,
                options::models(added@),
            ),
            result,
        ),
{
    let list = lines::split_text(text, '\n');
    let ghost views = text::views(list@);
    assert(list@.len() == views.len());
    if first_line == 0 || first_line - 1 > list.len() || line_count > list.len() - (first_line
        - 1) {
        let count_number = numbers::decimal(line_count);
        let first_number = numbers::decimal(first_line);
        let mut message = text::surround("the ", count_number.as_str(), " lines from line ");
        message.append(first_number.as_str());
        message.append(" aren't all in the file");
        return Err(message);
    }
    let first: usize = first_line - 1;
    assert(first + line_count <= list.len());
    let end: usize = first + line_count;
    let ghost indent_view = indent_of(views.skip(first as int));
    let indent = if first < list.len() {
        let chars = text::chars_of(list[first].as_str());
        let width = text::span_end(&chars, 0, CharClass::White);
        let indent = text::text_of(&chars, 0, width);
        proof {
            assert(chars@.skip(0) =~= chars@);
            assert(views.skip(first as int)[0] == list@[first as int]@);
            assert(indent@ =~= indent_view);
        }
        indent
    } else {
        String::new()
    };
    let mut result: Vec<String> = Vec::new();
    assert(text::views(result@) =~= Seq::empty());
    push_lines(&mut result, &list, 0, first);
    let ghost before = views.take(first as int);
    assert(text::views(result@) =~= before);
    let start_marker = markers::section_start_marker(section_name);
    let start_line = text::surround(indent.as_str(), "# ", start_marker.as_str());
    proof {
        text::lemma_views_push(result@, start_line);
    }
    result.push(start_line);
    push_option_lines(&mut result, indent.as_str(), added);
    proof {
        assert(text::views(result@) =~= before + start_lines(
            indent@,
            section_name@,
            options::models(added@),
        ));
    }
    push_lines(&mut result, &list, first, end);
    let end_marker = markers::section_end_marker(section_name);
    let end_line = text::surround(indent.as_str(), "# ", end_marker.as_str());
    proof {
        text::lemma_views_push(result@, end_line);
    }
    result.push(end_line);
    push_lines(&mut result, &list, end, list.len());
    proof {
        assert(views.subrange(end as int, list@.len() as int) =~= views.skip(end as int));
        assert(text::views(result@) =~= marked_lines(
            views,
            section_name@,
            first as int,
            line_count as int,
            options::models(added@),
        ));
    }
    Ok(lines::join_texts(&result, "\n"))
}

// ---------------------------------------------------------------------------
// Plans
// ---------------------------------------------------------------------------

/// `s` with one fix applied
pub open spec fn apply_fix_spec(
    s: Seq<char>,
    section: Option<Seq<char>>,
    fix: FixModel,
    doc_options: Seq<OptionModel>,
) -> Result<Seq<char>, Seq<char>> {
    match fix {
        FixModel::MarkFile => Ok(mark_file_spec(s, doc_options)),
        FixModel::MarkSection { name, first_line, line_count, options } => lightbulb::in_context(
            mark_section_spec(s, name, first_line, line_count, options + doc_options),
            "marking section \""@ + name + "\""@,
        ),
        FixModel::RemoveDashes => lightbulb::in_context(
            edit_region_spec(s, section, Rewrite::RemoveDashes),
            "removing the leading ---"@,
        ),
        FixModel::AddDashes => lightbulb::in_context(
            edit_region_spec(s, section, Rewrite::AddDashes),
            "adding a leading ---"@,
        ),
        FixModel::TrailingNewline { wanted_newlines, .. } => lightbulb::in_context(
            edit_region_spec(s, section, Rewrite::Newlines(wanted_newlines as usize)),
            "fixing the trailing newlines"@,
        ),
    }
}

/// Applies one fix to `text`, in `section` (if any)
pub fn apply_fix(
    text: &str,
    section: &Option<String>,
    fix: &LightbulbFix,
    doc_options: &Vec<MarkerOption>,
) -> (result: Result<String, String>)
    ensures
        text_is(
            apply_fix_spec(
                text@,
                text::option_view(*section),
                fix@,
                options::models(doc_options@),
            ),
            result,
        ),
{
    match fix {
        LightbulbFix::MarkFile => Ok(mark_file(text, doc_options)),
        LightbulbFix::MarkSection { name, first_line, line_count, options } => {
            let mut all_options = options::clone_options(options);
            let mut more = options::clone_options(doc_options);
            all_options.append(&mut more);
            assert(options::models(all_options@) =~= options::models(options@)
                + options::models(doc_options@));
            match mark_section(text, name.as_str(), *first_line, *line_count, &all_options) {
                Ok(result) => Ok(result),
                Err(error) => {
                    let context = text::surround("marking section \"", name.as_str(), "\"");
                    Err(lightbulb::error_in(context.as_str(), error))
                },
            }
        },
        LightbulbFix::RemoveDashes => match edit_region(text, section, &Rewrite::RemoveDashes) {
            Ok(result) => Ok(result),
            Err(error) => Err(lightbulb::error_in("removing the leading ---", error)),
        },
        LightbulbFix::AddDashes => match edit_region(text, section, &Rewrite::AddDashes) {
            Ok(result) => Ok(result),
            Err(error) => Err(lightbulb::error_in("adding a leading ---", error)),
        },
        LightbulbFix::TrailingNewline { wanted_newlines, .. } => {
            match edit_region(text, section, &Rewrite::Newlines(*wanted_newlines)) {
                Ok(result) => Ok(result),
                Err(error) => Err(lightbulb::error_in("fixing the trailing newlines", error)),
            }
        },
    }
}

/// `s` with fixes applied in order
pub open spec fn apply_fixes_spec(
    s: Seq<char>,
    section: Option<Seq<char>>,
    fixes: Seq<FixModel>,
    doc_options: Seq<OptionModel>,
) -> Result<Seq<char>, Seq<char>>
    decreases fixes.len(),
{
    if fixes.len() == 0 {
        Ok(s)
    } else {
        match apply_fixes_spec(s, section, fixes.drop_last(), doc_options) {
            Err(error) => Err(error),
            Ok(before) => apply_fix_spec(
                before,
                lightbulb::section_before(fixes.drop_last(), section),
                fixes.last(),
                doc_options,
            ),
        }
    }
}

proof fn lemma_apply_fixes_error(
    s: Seq<char>,
    section: Option<Seq<char>>,
    fixes: Seq<FixModel>,
    doc_options: Seq<OptionModel>,
    i: int,
)
    requires
        0 <= i <= fixes.len(),
        apply_fixes_spec(s, section, fixes.take(i), doc_options) is Err,
    ensures
        apply_fixes_spec(s, section, fixes, doc_options) == apply_fixes_spec(
            s,
            section,
            fixes.take(i),
            doc_options,
        ),
    decreases fixes.len(),
{
    if i == fixes.len() {
        assert(fixes.take(i) =~= fixes);
    } else {
        assert(fixes.drop_last().take(i) =~= fixes.take(i));
        lemma_apply_fixes_error(s, section, fixes.drop_last(), doc_options, i);
    }
}

/// Whether a fix adds a marker, which then carries the doc options
pub open spec fn adds_marker(fix: FixModel) -> bool {
    fix is MarkFile || fix is MarkSection
}

/// Whether some fix adds a marker
pub open spec fn options_placed(fixes: Seq<FixModel>) -> bool {
    exists|i: int| 0 <= i < fixes.len() && adds_marker(#[trigger] fixes[i])
}

/// Whether some fix adds a marker
fn places_options(fixes: &Vec<LightbulbFix>) -> (placed: bool)
    ensures
        placed == options_placed(lightbulb::fix_models(fixes@)),
{
    let ghost all = lightbulb::fix_models(fixes@);
    let mut i: usize = 0;
    while i < fixes.len()
        invariant
            i <= fixes@.len(),
            all == lightbulb::fix_models(fixes@),
            forall|k: int| 0 <= k < i ==> !adds_marker(#[trigger] all[k]),
        decreases fixes@.len() - i,
    {
        let adds = match &fixes[i] {
            LightbulbFix::MarkFile => true,
            LightbulbFix::MarkSection { .. } => true,
            _ => false,
        };
        assert(adds == adds_marker(all[i as int]));
        if adds {
            return true;
        }
        i = i + 1;
    }
    false
}

/// `s` with a lightbulb's changes
pub open spec fn apply_spec(s: Seq<char>, section: Option<Seq<char>>, plan: PlanModel) -> Result<
    Seq<char>,
    Seq<char>,
> {
    match apply_fixes_spec(s, section, plan.fixes, plan.doc_options) {
        Err(error) => Err(error),
        Ok(fixed) => if plan.doc_options.len() > 0 && !options_placed(plan.fixes) {
            lightbulb::in_context(
                extend_marker_spec(
                    fixed,
                    lightbulb::section_before(plan.fixes, section),
                    plan.doc_options,
                ),
                "adding the doc options"@,
            )
        } else {
            Ok(fixed)
        },
    }
}

/// Applies a lightbulb's changes to a file's text (and its section, if any)
pub fn apply(text: &str, section: &Option<String>, plan: &LightbulbPlan) -> (result: Result<
    String,
    String,
>)
    ensures
        text_is(apply_spec(text@, text::option_view(*section), plan@), result),
{
    let ghost fixes = plan@.fixes;
    let ghost doc_options = plan@.doc_options;
    let ghost start = text::option_view(*section);
    let mut current: Option<String> = match section {
        Some(name) => Some(name.clone()),
        None => None,
    };
    let mut fixed = text.to_owned();
    let mut i: usize = 0;
    while i < plan.fixes.len()
        invariant
            i <= plan.fixes@.len(),
            fixes == plan@.fixes,
            doc_options == plan@.doc_options,
            start == text::option_view(*section),
            text::option_view(current) == lightbulb::section_before(fixes.take(i as int), start),
            apply_fixes_spec(text@, start, fixes.take(i as int), doc_options) == Ok::<
                _,
                Seq<char>,
            >(fixed@),
        decreases plan.fixes@.len() - i,
    {
        let ghost head = fixes.take(i as int);
        proof {
            assert(fixes.take(i + 1).drop_last() =~= head);
            assert(fixes.take(i + 1).last() == plan.fixes@[i as int]@);
        }
        let fix = &plan.fixes[i];
        match apply_fix(fixed.as_str(), &current, fix, &plan.doc_options) {
            Err(error) => {
                proof {
                    lemma_apply_fixes_error(text@, start, fixes, doc_options, i + 1);
                }
                return Err(error);
            },
            Ok(next) => {
                fixed = next;
            },
        }
        current = lightbulb::section_after(fix, current);
        i = i + 1;
    }
    assert(fixes.take(i as int) =~= fixes);
    assert(doc_options.len() == plan.doc_options@.len());
    if plan.doc_options.len() > 0 && !places_options(&plan.fixes) {
        match extend_marker(fixed.as_str(), &current, &plan.doc_options) {
            Ok(result) => Ok(result),
            Err(error) => Err(lightbulb::error_in("adding the doc options", error)),
        }
    } else {
        Ok(fixed)
    }
}

} // verus!
