//! Options added to a marker read back after those it had.

use crate::apply;
use crate::bytes;
use crate::edit_laws;
use crate::edits;
use crate::lines;
use crate::marker_laws;
use crate::markers;
use crate::markers::HeaderModel;
use crate::markers::OpenModel;
use crate::markers::ScanModel;
use crate::markers::SectionModel;
use crate::option_laws;
use crate::options;
use crate::options::OptionModel;
use crate::repo;
use crate::rewrite_laws;
use crate::scans;
use crate::text;
use crate::text::CharClass;
use vstd::prelude::*;

verus! {

// ---------------------------------------------------------------------------
// A marker with more options
// ---------------------------------------------------------------------------

proof fn lemma_found_before(s: Seq<char>, part: Seq<char>, more: Seq<char>)
    requires
        text::find_spec(s, part) is Some,
    ensures
        text::find_spec(s + more, part) == text::find_spec(s, part),
{
    text::lemma_find(s, part);
    let i = text::find_spec(s, part)->0;
    let all = s + more;
    assert(all.subrange(i, i + part.len()) =~= s.subrange(i, i + part.len()));
    assert forall|j: int| 0 <= j < i implies !text::occurs_at(all, part, j) by {
        assert(all.subrange(j, j + part.len()) =~= s.subrange(j, j + part.len()));
        assert(!text::occurs_at(s, part, j));
    }
    text::lemma_find_is(all, part, i);
}

proof fn lemma_concat_has_no_line_end(first: Seq<char>, second: Seq<char>)
    requires
        !first.contains('\n'),
        !second.contains('\n'),
    ensures
        !(first + second).contains('\n'),
{
    let all = first + second;
    assert forall|i: int| 0 <= i < all.len() implies all[i] != '\n' by {
        if i < first.len() {
            assert(first.contains(first[i]));
        } else {
            assert(second.contains(second[i - first.len()]));
        }
    }
}

/// A start marker's text with more options
proof fn lemma_start_more(marker: Seq<char>, added: Seq<OptionModel>)
    requires
        markers::file_options_spec(marker) is None,
        markers::start_spec(marker) matches Some((_, options_text)) && options::options_spec(
            options_text,
        ) is Ok,
        edit_laws::fit_lines(added),
    ensures
        ({
            let (name, options_text) = markers::start_spec(marker)->0;
            let whole = marker + option_laws::written(added);
            &&& markers::file_options_spec(whole) is None
            &&& markers::start_spec(whole) matches Some((named, text)) && named == name
                && options::options_spec(text) == Ok::<_, Seq<char>>(
                options::options_spec(options_text)->Ok_0 + added,
            )
        }),
{
    let more = option_laws::written(added);
    let whole = marker + more;
    let before = "start section \""@;
    let (name, options_text) = markers::start_spec(marker)->0;
    let rest = marker.skip(before.len() as int);
    reveal_strlit("start section \"");
    reveal_strlit("file");
    assert(before.is_prefix_of(whole)) by {
        assert(whole.take(before.len() as int) =~= marker.take(before.len() as int));
    }
    assert(marker.take(before.len() as int)[0] == 's');
    assert(!"file"@.is_prefix_of(whole)) by {
        if "file"@.is_prefix_of(whole) {
            assert(whole.take(4)[0] == 'f');
        }
    }
    assert(whole.skip(before.len() as int) =~= rest + more);
    lemma_found_before(rest, "\""@, more);
    text::lemma_find(rest, "\""@);
    let i = text::find_spec(rest, "\""@)->0;
    assert((rest + more).take(i) =~= rest.take(i));
    assert((rest + more).skip(i + "\""@.len()) =~= rest.skip(i + "\""@.len()) + more);
    edit_laws::lemma_written_fits(added);
    lemma_concat_has_no_line_end(options_text, more);
    edit_laws::lemma_valid(added);
    option_laws::law_more_options(options_text, added);
}

/// A file marker's text with more options
proof fn lemma_file_more(marker: Seq<char>, added: Seq<OptionModel>)
    requires
        markers::file_options_spec(marker) matches Some(options_text) && options::options_spec(
            options_text,
        ) is Ok,
        edit_laws::fit_lines(added),
    ensures
        ({
            let options_text = markers::file_options_spec(marker)->0;
            let whole = marker + option_laws::written(added);
            markers::file_options_spec(whole) matches Some(text) && options::options_spec(text)
                == Ok::<_, Seq<char>>(options::options_spec(options_text)->Ok_0 + added)
        }),
{
    let more = option_laws::written(added);
    let whole = marker + more;
    let options_text = markers::file_options_spec(marker)->0;
    reveal_strlit("file");
    reveal_strlit(" | ");
    assert("file"@.is_prefix_of(whole)) by {
        assert(whole.take(4) =~= marker.take(4));
    }
    let rest = options_text + more;
    assert(whole.skip(4) =~= rest);
    edit_laws::lemma_written_fits(added);
    edit_laws::lemma_valid(added);
    option_laws::law_more_options(options_text, added);
    if rest.len() > 0 {
        if options_text.len() > 0 {
            assert(rest[0] == options_text[0]);
            lemma_concat_has_no_line_end(options_text.skip(1), more);
            assert(rest.skip(1) =~= options_text.skip(1) + more);
        } else {
            assert(rest =~= more);
            assert(more[0] == ' ');
            assert forall|j: int| 0 <= j < rest.skip(1).len() implies rest.skip(1)[j] != '\n' by {
                assert(more.contains(more[j + 1]));
            }
        }
    }
}

/// The lines of a text with options added under a marker that ends before line `last`
pub open spec fn extended_lines(
    list: Seq<Seq<char>>,
    last: int,
    indent: Seq<char>,
    added: Seq<OptionModel>,
) -> Seq<Seq<char>> {
    list.take(last) + edits::option_lines(indent, added) + (if last < list.len() {
        list.skip(last)
    } else {
        seq![Seq::<char>::empty()]
    })
}

proof fn lemma_blank_stops(list: Seq<Seq<char>>, i: int)
    requires
        0 <= i < list.len(),
        list[i].len() == 0,
    ensures
        !markers::continues(list, i),
{
    text::lemma_span(list[i], CharClass::White);
}

/// A marker's text with more option lines under it
proof fn lemma_extended_body(
    list: Seq<Seq<char>>,
    f: int,
    after: Seq<char>,
    indent: Seq<char>,
    added: Seq<OptionModel>,
)
    requires
        0 <= f < list.len(),
        edit_laws::all_white(indent),
        edit_laws::fit_lines(added),
        markers::takes_continuations(text::trimmed(after)),
    ensures
        ({
            let (marker, end) = markers::body_spec(list, f, after);
            let all = extended_lines(list, end + 1, indent, added);
            &&& f <= end < list.len()
            &&& markers::body_spec(all, f, after) == (
                marker + option_laws::written(added),
                end + added.len(),
            )
            &&& !markers::continues(all, end + 1 + added.len())
            &&& forall|k: int|
                end < k < end + 1 + added.len() ==> !text::occurs(
                    #[trigger] all[k],
                    markers::MARKER_PREFIX@,
                )
        }),
{
    let (marker, end) = markers::body_spec(list, f, after);
    let trimmed = text::trimmed(after);
    let count = markers::continuation_count(list, f + 1);
    markers::lemma_continuation_count(list, f + 1);
    let last = end + 1;
    let n = added.len() as int;
    let all = extended_lines(list, last, indent, added);
    let option_lines = edits::option_lines(indent, added);
    assert forall|k: int| last <= k < last + n implies markers::continues(all, k) && all[k]
        == apply::continuation_line(indent, added[k - last]) by {
        assert(all[k] == option_lines[k - last]);
        assert(edit_laws::fits_a_line(added[k - last]));
        edit_laws::lemma_continuation_line(indent, added[k - last]);
    }
    assert forall|k: int| f < k < last implies markers::continues(all, k) by {
        assert(all[k] == list[k]);
        assert(markers::continues(list, k));
    }
    assert(!markers::continues(all, last + n)) by {
        if last < list.len() {
            assert(all[last + n] == list[last]);
        } else {
            assert(all[last + n] =~= Seq::<char>::empty());
            lemma_blank_stops(all, last + n);
        }
    }
    markers::lemma_continuation_count_is(all, f + 1, count + n);
    let first = seq![trimmed] + markers::continuation_texts(list, f + 1, count);
    let second = Seq::new(added.len(), |i: int| "| "@ + options::option_text(added[i]));
    let whole = markers::continuation_texts(all, f + 1, (count + n) as nat);
    assert(seq![trimmed] + whole =~= first + second) by {
        assert forall|k: int| 0 <= k < count + n implies #[trigger] whole[k] == (if k < count {
            markers::continuation_texts(list, f + 1, count)[k]
        } else {
            second[k - count]
        }) by {
            if k < count {
                assert(all[f + 1 + k] == list[f + 1 + k]);
            } else {
                let m = k - count;
                assert(all[last + m] == apply::continuation_line(indent, added[m]));
                assert(edit_laws::fits_a_line(added[m]));
                edit_laws::lemma_continuation_line(indent, added[m]);
            }
        }
    }
    edit_laws::lemma_joined(marker, added);
    if n > 0 {
        lines::lemma_join_concat(first, second, " "@);
        lines::lemma_join_concat(seq![marker], second, " "@);
        assert(lines::join(seq![marker], " "@) == marker);
    } else {
        assert(first + second =~= first);
        assert(seq![marker] + second =~= seq![marker]);
    }
}

/// A text whose last line holds something doesn't end with a line end
proof fn lemma_last_line(list: Seq<Seq<char>>)
    requires
        list.len() > 0,
        list.last().len() > 0,
        !list.last().contains('\n'),
    ensures
        lines::join(list, seq!['\n']).len() > 0,
        lines::join(list, seq!['\n']).last() != '\n',
{
    let last = list.last();
    assert(last.contains(last[last.len() - 1]));
    assert(lines::join(list, seq!['\n']).last() == last[last.len() - 1]);
}

/// The last line of a marker holds something
proof fn lemma_marker_ends(list: Seq<Seq<char>>, f: int, last: int)
    requires
        0 <= f < last <= list.len(),
        text::split_once_spec(list[f], markers::MARKER_PREFIX@) matches Some((_, after))
            && markers::body_spec(list, f, after).1 == last - 1,
    ensures
        list[last - 1].len() > 0,
{
    markers::lemma_continuation_count(list, f + 1);
    if last - 1 == f {
        text::lemma_find(list[f], markers::MARKER_PREFIX@);
        reveal_strlit("@docs-as-code:");
    } else {
        assert(markers::continues(list, last - 1));
        text::lemma_span(list[last - 1], CharClass::White);
    }
}

/// The lines up to a marker's last one, each with its line end
proof fn lemma_through_marker(list: Seq<Seq<char>>, f: int, last: int)
    requires
        0 <= f < last <= list.len(),
        list[last - 1].len() > 0,
        !list[last - 1].contains('\n'),
    ensures
        ({
            let part = list.subrange(f, last);
            let through = marker_laws::head(list, f) + (if last < list.len() {
                rewrite_laws::ended(part)
            } else {
                lines::join(part, seq!['\n'])
            });
            through + edits::separator_after(through) == rewrite_laws::ended(list.take(last))
        }),
{
    let sep = seq!['\n'];
    let part = list.subrange(f, last);
    let first = list.take(last);
    let before = marker_laws::head(list, f);
    reveal_strlit("\n");
    reveal_strlit("");
    assert(first.subrange(0, last) =~= first);
    assert(part.subrange(0, part.len() as int) =~= part);
    assert(first =~= list.take(f) + part);
    if f > 0 {
        lines::lemma_join_concat(list.take(f), part, sep);
    } else {
        assert(first =~= part);
    }
    let joined = lines::join(first, sep);
    assert(before + lines::join(part, sep) =~= joined);
    if last < list.len() {
        let through = before + rewrite_laws::ended(part);
        assert(through =~= joined.push('\n'));
        assert("\n"@.is_suffix_of(through)) by {
            assert(through.skip(through.len() - 1) =~= "\n"@);
        }
        assert(through + ""@ =~= through);
    } else {
        assert(first =~= list);
        lemma_last_line(list);
        assert(!"\n"@.is_suffix_of(joined)) by {
            if "\n"@.is_suffix_of(joined) {
                assert(joined.skip(joined.len() - 1)[0] == '\n');
            }
        }
        assert(joined + "\n"@ =~= joined.push('\n'));
    }
}

/// Where options are added to a marker, in text
proof fn lemma_extended_text(s: Seq<char>, header: HeaderModel, added: Seq<OptionModel>)
    requires
        marker_laws::header_in(lines::split(s, '\n'), bytes::byte_len(s), header),
        lines::split(s, '\n')[header.last_line - 1].len() > 0,
        edit_laws::fit_lines(added),
    ensures
        ({
            let list = lines::split(s, '\n');
            let f = header.first_line - 1;
            let last = header.last_line as int;
            let (before, marker, after) = edits::split_around_spec(
                s,
                header.marker_from,
                header.marker_to,
            )->Ok_0;
            let indent = marker.take(text::span(marker, CharClass::Blank) as int);
            let extended = before + marker + edits::separator_after(before + marker)
                + apply::continuation_lines_spec(indent, added) + after;
            let all = extended_lines(list, last, indent, added);
            &&& edits::split_around_spec(s, header.marker_from, header.marker_to) is Ok
            &&& edit_laws::all_white(indent)
            &&& extended == lines::join(all, seq!['\n'])
            &&& lines::split(extended, '\n') == all
        }),
{
    let list = lines::split(s, '\n');
    let sep = seq!['\n'];
    let f = header.first_line - 1;
    let last = header.last_line as int;
    lines::lemma_split(s, '\n');
    lines::lemma_join_split(s, '\n');
    rewrite_laws::lemma_file_parts(s, header);
    let (before, marker, after) = edits::split_around_spec(
        s,
        header.marker_from,
        header.marker_to,
    )->Ok_0;
    let blank = text::span(marker, CharClass::Blank) as int;
    let indent = marker.take(blank);
    text::lemma_span(marker, CharClass::Blank);
    assert forall|i: int| 0 <= i < indent.len() implies text::is_white(#[trigger] indent[i])
        && indent[i] != '\n' by {
        assert(CharClass::Blank.has(marker[i]));
    }
    let option_lines = edits::option_lines(indent, added);
    let rest = if last < list.len() {
        list.skip(last)
    } else {
        seq![Seq::<char>::empty()]
    };
    let all = extended_lines(list, last, indent, added);
    edit_laws::lemma_continuations(indent, added);
    assert(option_lines.subrange(0, option_lines.len() as int) =~= option_lines);
    assert(apply::continuation_lines_spec(indent, added) =~= rewrite_laws::ended(option_lines));
    let first = list.take(last);
    let ended_first = rewrite_laws::ended(first);
    lemma_through_marker(list, f, last);
    let extended = before + marker + edits::separator_after(before + marker)
        + apply::continuation_lines_spec(indent, added) + after;
    rewrite_laws::lemma_joined_parts(first, option_lines + rest, Seq::empty());
    assert(first + (option_lines + rest) + Seq::<Seq<char>>::empty() =~= all);
    assert(lines::join(all, sep) == ended_first + lines::join(option_lines + rest, sep));
    if added.len() > 0 {
        lines::lemma_join_concat(option_lines, rest, sep);
        assert(lines::join(option_lines + rest, sep) =~= rewrite_laws::ended(option_lines)
            + lines::join(rest, sep));
    } else {
        assert(option_lines + rest =~= rest);
        assert(rewrite_laws::ended(option_lines) + lines::join(rest, sep) =~= lines::join(
            rest,
            sep,
        ));
    }
    assert(lines::join(rest, sep) =~= after);
    assert(extended =~= lines::join(all, sep));
    assert forall|i: int| 0 <= i < all.len() implies !(#[trigger] all[i]).contains('\n') by {
        if i < last {
            assert(all[i] == list[i]);
        } else if i < last + added.len() {
            assert(all[i] == option_lines[i - last]);
            assert(edit_laws::fits_a_line(added[i - last]));
            assert(!indent.contains('\n'));
            edit_laws::lemma_option_line_fits(indent, added[i - last]);
        } else {
            assert(all[i] == rest[i - last - added.len()]);
        }
    }
    lines::lemma_split_join(all, '\n');
}

// ---------------------------------------------------------------------------
// Sections
// ---------------------------------------------------------------------------

/// What is known of a section's start marker
proof fn lemma_start_origin(list: Seq<Seq<char>>, total: nat, section: SectionModel)
    requires
        scans::closed(list, total, section),
    ensures
        ({
            let f = section.header.first_line - 1;
            let l = section.header.last_line as int;
            let found = scans::scan_before(list, total, f);
            let (_, after) = text::split_once_spec(list[f], markers::MARKER_PREFIX@)->0;
            &&& scans::is_start(list, total, section.name, section.header)
            &&& !markers::continues(list, f)
            &&& !edit_laws::knows(found, section.name)
            &&& markers::open_names(found.open).no_duplicates()
            &&& scans::scan_before(list, total, l) == edit_laws::after_marker(
                list,
                total,
                f,
                after,
                found,
            )
        }),
{
    reveal(scans::closed);
    reveal(scans::opened);
    let f = section.header.first_line - 1;
    let found = scans::scan_before(list, total, f);
    let (_, after) = text::split_once_spec(list[f], markers::MARKER_PREFIX@)->0;
    text::lemma_find(list[f], markers::MARKER_PREFIX@);
    let i = text::find_spec(list[f], markers::MARKER_PREFIX@)->0;
    assert(text::occurs_at(list[f], markers::MARKER_PREFIX@, i));
    scans::lemma_arrives_after(list, total, f, after, found);
}

/// Two ways to open a section after the same lines
proof fn lemma_two_starts(
    found: ScanModel,
    old: ScanModel,
    old_open: OpenModel,
    next: ScanModel,
    open: OpenModel,
    p: int,
)
    requires
        0 <= p <= found.open.len(),
        old_open.name == open.name,
        !edit_laws::knows(found, open.name),
        markers::open_names(found.open).no_duplicates(),
        old.open == found.open.insert(p, old_open),
        next.open == found.open.insert(p, open),
        old.markers.sections == next.markers.sections,
    ensures
        scans::alike(old, old_open, next, open),
{
    let names = markers::open_names(found.open);
    scans::lemma_opened_names(found, old, p, old_open);
    scans::lemma_opened_names(found, next, p, open);
    let after = names.insert(p, open.name);
    assert(markers::open_names(old.open) =~= after);
    assert(markers::open_names(next.open) =~= after);
    assert(after[p] == open.name);
}

/// What a start marker opens
proof fn lemma_started(
    list: Seq<Seq<char>>,
    total: nat,
    f: int,
    after: Seq<char>,
    name: Seq<char>,
    found: ScanModel,
)
    requires
        ({
            let (marker, _) = markers::body_spec(list, f, after);
            &&& markers::file_options_spec(marker) is None
            &&& markers::start_spec(marker) matches Some((named, text)) && named == name
                && options::options_spec(text) is Ok
        }),
        !edit_laws::knows(found, name),
    ensures
        ({
            let (marker, last) = markers::body_spec(list, f, after);
            let (_, text) = markers::start_spec(marker)->0;
            let next = edit_laws::after_marker(list, total, f, after, found);
            let p = markers::place(markers::open_names(found.open), name);
            let header = markers::header_spec(
                markers::span_spec(list, total, f, last),
                options::options_spec(text)->Ok_0,
            );
            &&& 0 <= p <= found.open.len()
            &&& next.open == found.open.insert(p, OpenModel { name, header })
            &&& next.markers == found.markers
        }),
{
    markers::lemma_place(markers::open_names(found.open), name);
}

/// A start marker with more options opens its section with them
proof fn lemma_extended_start(
    list: Seq<Seq<char>>,
    section: SectionModel,
    indent: Seq<char>,
    added: Seq<OptionModel>,
) -> (result: (ScanModel, OpenModel))
    requires
        scans::closed(list, scans::length_of(list), section),
        edit_laws::all_white(indent),
        edit_laws::fit_lines(added),
    ensures
        ({
            let l = section.header.last_line as int;
            let all = extended_lines(list, l, indent, added);
            let (next, open) = result;
            &&& markers::scan_spec(all, scans::length_of(all), 0, edit_laws::empty_scan())
                == markers::scan_spec(all, scans::length_of(all), l + added.len(), next)
            &&& open.name == section.name
            &&& open.header.options == section.header.options + added
            &&& open.header.last_line == l + added.len()
            &&& scans::alike(
                scans::scan_before(list, scans::length_of(list), l),
                scans::open_part(section),
                next,
                open,
            )
        }),
{
    let total = scans::length_of(list);
    let header = section.header;
    let name = section.name;
    let f = header.first_line - 1;
    let l = header.last_line as int;
    let n = added.len() as int;
    let all = extended_lines(list, l, indent, added);
    let all_total = scans::length_of(all);
    let empty = edit_laws::empty_scan();
    lemma_start_origin(list, total, section);
    rewrite_laws::lemma_section_origin(list, total, section);
    let found = scans::scan_before(list, total, f);
    let (_, after) = text::split_once_spec(list[f], markers::MARKER_PREFIX@)->0;
    let (marker, end) = markers::body_spec(list, f, after);
    // The lines before the marker
    assert(all[f] == list[f]);
    assert(all.take(f) =~= list.take(f));
    assert(!markers::continues(all, f));
    scans::lemma_same_scan(list, all, 0, f, empty);
    edit_laws::lemma_scan_split(all, all_total, 0, f, empty);
    // The marker
    lemma_extended_body(list, f, after, indent, added);
    lemma_start_more(marker, added);
    let next = edit_laws::after_marker(all, all_total, f, after, found);
    let old = scans::scan_before(list, total, l);
    let p = markers::place(markers::open_names(found.open), name);
    let open = OpenModel {
        name,
        header: markers::header_spec(
            markers::span_spec(all, all_total, f, end + n),
            header.options + added,
        ),
    };
    lemma_started(list, total, f, after, name, found);
    lemma_started(all, all_total, f, after, name, found);
    assert(next.open == found.open.insert(p, open));
    assert(old.open == found.open.insert(p, scans::open_part(section)));
    lemma_two_starts(found, old, scans::open_part(section), next, open, p);
    (next, open)
}

/// Options added to a section's start marker read back after those it had, and its
/// marked lines stay as they are
#[verifier::rlimit(40)]
pub proof fn law_extended_section_reads_back(
    s: Seq<char>,
    name: Seq<char>,
    added: Seq<OptionModel>,
)
    requires
        markers::section_spec(markers::markers_spec(s), name) is Some,
        edit_laws::fit_lines(added),
    ensures
        ({
            let section = markers::section_spec(markers::markers_spec(s), name)->0;
            edits::extend_marker_spec(s, Some(name), added) matches Ok(extended) && (
            markers::section_spec(markers::markers_spec(extended), name) matches Some(after)
                && after.header.options == section.header.options + added && (
            repo::marked_section_spec(extended, after) matches Ok(raw)
                && repo::marked_section_spec(s, section) matches Ok(old) && raw.raw == old.raw))
        }),
{
    let list = lines::split(s, '\n');
    let found = markers::markers_spec(s);
    let names = markers::section_names(found.sections);
    markers::lemma_index_of(names, name);
    let at = markers::index_of(names, name)->0;
    let section = found.sections[at];
    let total = scans::length_of(list);
    lines::lemma_split(s, '\n');
    lines::lemma_join_split(s, '\n');
    scans::lemma_traced(s);
    assert(scans::closed(list, total, section));
    marker_laws::law_markers_are_whole_lines(s);
    assert(marker_laws::section_in(list, bytes::byte_len(s), section));
    repo::law_marked_code_is_in_the_text(s);
    lemma_start_origin(list, total, section);
    rewrite_laws::lemma_section_origin(list, total, section);
    let f = section.header.first_line - 1;
    let l = section.header.last_line as int;
    let e = section.end_line - 1;
    let n = added.len() as int;
    lemma_marker_ends(list, f, l);
    lemma_extended_text(s, section.header, added);
    let extended = edits::extend_marker_spec(s, Some(name), added)->Ok_0;
    let (_, marker_text, _) = edits::split_around_spec(
        s,
        section.header.marker_from,
        section.header.marker_to,
    )->Ok_0;
    let indent = marker_text.take(text::span(marker_text, CharClass::Blank) as int);
    let all = extended_lines(list, l, indent, added);
    let all_total = scans::length_of(all);
    let (next, open) = lemma_extended_start(list, section, indent, added);
    // The lines after the marker
    let old_open = scans::open_part(section);
    let before = scans::scan_before(list, total, l);
    assert(all[e + n] == list[e]);
    assert(scans::is_end(all, name, e + n));
    rewrite_laws::lemma_end_line_stops(all, name, e + n);
    assert forall|k: int| l <= k < e implies #[trigger] list[k] == all[k + n] by {}
    scans::lemma_moved_scan(
        list,
        total,
        before,
        old_open,
        all,
        all_total,
        next,
        open,
        l,
        e,
        n,
    );
    let after_lines = edit_laws::scan_to(all, all_total, l + n, e + n, next);
    edit_laws::lemma_scan_split(all, all_total, l + n, e + n, next);
    scans::lemma_closes(all, all_total, e + n, after_lines, open);
    // What the section marks
    let after = markers::section_spec(markers::markers_spec(extended), name)->0;
    repo::law_marked_code_is_in_the_text(extended);
    let found_after = markers::markers_spec(extended);
    markers::lemma_index_of(markers::section_names(found_after.sections), name);
    let m = markers::index_of(markers::section_names(found_after.sections), name)->0;
    assert(found_after.sections[m] == after);
    assert(all.subrange(l + n, e + n) =~= list.subrange(l, e));
    assert(marker_laws::body(all, l + n, e + n) == marker_laws::body(list, l, e));
}

// ---------------------------------------------------------------------------
// Files
// ---------------------------------------------------------------------------

/// Options added to a file marker read back after those it had, and what it marks stays
/// as it is
#[verifier::rlimit(40)]
pub proof fn law_extended_file_reads_back(s: Seq<char>, added: Seq<OptionModel>)
    requires
        markers::markers_spec(s).file is Some,
        edit_laws::fit_lines(added),
    ensures
        ({
            let header = markers::markers_spec(s).file->0;
            edits::extend_marker_spec(s, None, added) matches Ok(extended) && (
            markers::markers_spec(extended).file matches Some(after) && after.options
                == header.options + added && rewrite_laws::unmarked(extended, after)
                == rewrite_laws::unmarked(s, header) && repo::marked_file_spec(
                extended,
                after,
            ) is Ok)
        }),
{
    let list = lines::split(s, '\n');
    let header = markers::markers_spec(s).file->0;
    let total = scans::length_of(list);
    let empty = edit_laws::empty_scan();
    lines::lemma_split(s, '\n');
    lines::lemma_join_split(s, '\n');
    scans::lemma_traced(s);
    assert(scans::is_file_marker(list, total, header));
    marker_laws::law_markers_are_whole_lines(s);
    rewrite_laws::lemma_file_parts(s, header);
    let f = header.first_line - 1;
    let l = header.last_line as int;
    let n = added.len() as int;
    lemma_marker_ends(list, f, l);
    lemma_extended_text(s, header, added);
    let extended = edits::extend_marker_spec(s, None, added)->Ok_0;
    let (_, marker_text, _) = edits::split_around_spec(
        s,
        header.marker_from,
        header.marker_to,
    )->Ok_0;
    let indent = marker_text.take(text::span(marker_text, CharClass::Blank) as int);
    let all = extended_lines(list, l, indent, added);
    let all_total = scans::length_of(all);
    // The marker
    let (_, after) = text::split_once_spec(list[f], markers::MARKER_PREFIX@)->0;
    let (marker, end) = markers::body_spec(list, f, after);
    assert(all[f] == list[f]);
    lemma_extended_body(list, f, after, indent, added);
    lemma_file_more(marker, added);
    let span = markers::span_spec(all, all_total, f, end + n);
    let found = scans::scan_before(list, total, f);
    let old = edit_laws::after_marker(list, total, f, after, found);
    let next = edit_laws::after_marker(all, all_total, f, after, found);
    let changed = markers::header_spec(span, header.options + added);
    assert(old.markers.file == Some(header));
    assert(next.markers.file == Some(changed));
    markers::lemma_continuation_count(list, f + 1);
    markers::lemma_continuation_count(all, f + 1);
    // The lines before it
    text::lemma_find(list[f], markers::MARKER_PREFIX@);
    assert(text::occurs(list[f], markers::MARKER_PREFIX@));
    assert(!markers::continues(list, f));
    assert(!markers::continues(all, f));
    assert(all.take(f) =~= list.take(f));
    scans::lemma_same_scan(list, all, 0, f, empty);
    edit_laws::lemma_scan_split(list, total, 0, f, empty);
    edit_laws::lemma_scan_split(all, all_total, 0, f, empty);
    // The lines after it
    if l < list.len() {
        assert(all.skip(l + n) =~= list.skip(l));
        edit_laws::lemma_scan_keeps_file(list, total, old, all, all_total, next, l, n);
    } else {
        assert forall|k: int| l + n <= k < all.len() implies !text::occurs(
            #[trigger] all[k],
            markers::MARKER_PREFIX@,
        ) by {
            reveal_strlit("@docs-as-code:");
            assert(all[k].len() == 0);
        }
        edit_laws::lemma_scan_skips(all, all_total, l + n, all.len() as int, next);
    }
    assert(markers::markers_spec(extended).file == Some(changed));
    // What it marks
    marker_laws::law_markers_are_whole_lines(extended);
    rewrite_laws::lemma_file_parts(extended, changed);
    repo::law_marked_code_is_in_the_text(extended);
    assert(marker_laws::head(all, f) =~= marker_laws::head(list, f));
    if l < list.len() {
        assert(all.skip(l + n) =~= list.skip(l));
    } else {
        assert(all.skip(l + n) =~= seq![Seq::<char>::empty()]);
    }
    assert(rewrite_laws::unmarked(extended, changed) =~= rewrite_laws::unmarked(s, header));
}

} // verus!
