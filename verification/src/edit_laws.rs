//! Markers written into a file read back as they were written.

use crate::apply;
use crate::bytes;
use crate::edits;
use crate::lines;
use crate::marker_laws;
use crate::markers;
use crate::markers::ScanModel;
use crate::markers::SectionModel;
use crate::markers::SpanModel;
use crate::option_laws;
use crate::options;
use crate::options::OptionModel;
use crate::repo;
use crate::rewrite_laws;
use crate::text;
use crate::text::CharClass;
use vstd::prelude::*;

verus! {

/// Nothing found yet
pub open spec fn empty_scan() -> ScanModel {
    ScanModel { markers: markers::no_markers(), open: Seq::empty() }
}

/// What a scan of all lines of a text finds, before it is finished
pub open spec fn scan_of(s: Seq<char>) -> ScanModel {
    markers::scan_spec(lines::split(s, '\n'), bytes::byte_len(s), 0, empty_scan())
}

/// Whether a section of that name was found, closed or not
pub open spec fn knows(scan: ScanModel, name: Seq<char>) -> bool {
    markers::open_names(scan.open).contains(name) || markers::section_names(
        scan.markers.sections,
    ).contains(name)
}

/// Whether a text has a section of that name, closed or not
pub open spec fn uses_name(s: Seq<char>, name: Seq<char>) -> bool {
    knows(scan_of(s), name)
}

/// Whether a name can be a section's
pub open spec fn is_section_name(name: Seq<char>) -> bool {
    name.len() > 0 && !name.contains('"') && !name.contains('\n')
}

/// Whether an option can stand on a line of its own under a marker
pub open spec fn fits_a_line(option: OptionModel) -> bool {
    &&& option_laws::is_valid(option)
    &&& !options::option_text(option).contains('\n')
    &&& !text::occurs(options::option_text(option), markers::MARKER_PREFIX@)
}

/// Whether options can stand on lines of their own under a marker
pub open spec fn fit_lines(list: Seq<OptionModel>) -> bool {
    forall|i: int| 0 <= i < list.len() ==> fits_a_line(#[trigger] list[i])
}

// ---------------------------------------------------------------------------
// Scanning part of the lines
// ---------------------------------------------------------------------------

/// The scan after one marker
pub open spec fn after_marker(
    list: Seq<Seq<char>>,
    total: nat,
    i: int,
    after: Seq<char>,
    scan: ScanModel,
) -> ScanModel {
    let (marker, last) = markers::body_spec(list, i, after);
    let span = markers::span_spec(list, total, i, last);
    match markers::record_spec(marker, span, scan) {
        Ok(next) => next,
        Err(error) => markers::with_problem(scan, markers::line_problem(span.first_line, error)),
    }
}

/// What the markers from line `i` up to line `stop` add to what was found before
pub open spec fn scan_to(
    list: Seq<Seq<char>>,
    total: nat,
    i: int,
    stop: int,
    scan: ScanModel,
) -> ScanModel
    decreases list.len() - i,
{
    if !(0 <= i < list.len()) || i >= stop {
        scan
    } else {
        match text::split_once_spec(list[i], markers::MARKER_PREFIX@) {
            None => scan_to(list, total, i + 1, stop, scan),
            Some((_, after)) => {
                proof {
                    markers::lemma_continuation_count(list, i + 1);
                }
                scan_to(
                    list,
                    total,
                    markers::body_spec(list, i, after).1 + 1,
                    stop,
                    after_marker(list, total, i, after, scan),
                )
            },
        }
    }
}

/// Continuation lines stop before a line that continues nothing
pub proof fn lemma_count_stops(list: Seq<Seq<char>>, i: int, stop: int)
    requires
        0 <= i <= stop <= list.len(),
        !markers::continues(list, stop),
    ensures
        i + markers::continuation_count(list, i) <= stop,
    decreases stop - i,
{
    if i < stop && markers::continues(list, i) {
        lemma_count_stops(list, i + 1, stop);
    }
}

pub proof fn lemma_scan_split(list: Seq<Seq<char>>, total: nat, i: int, stop: int, scan: ScanModel)
    requires
        0 <= i <= stop <= list.len(),
        !markers::continues(list, stop),
    ensures
        markers::scan_spec(list, total, i, scan) == markers::scan_spec(
            list,
            total,
            stop,
            scan_to(list, total, i, stop, scan),
        ),
    decreases stop - i,
{
    if i < stop {
        match text::split_once_spec(list[i], markers::MARKER_PREFIX@) {
            None => {
                lemma_scan_split(list, total, i + 1, stop, scan);
            },
            Some((_, after)) => {
                lemma_count_stops(list, i + 1, stop);
                let last = markers::body_spec(list, i, after).1;
                lemma_scan_split(
                    list,
                    total,
                    last + 1,
                    stop,
                    after_marker(list, total, i, after, scan),
                );
            },
        }
    }
}

/// Whether two scans found sections of the same names
pub open spec fn same_names(first: ScanModel, second: ScanModel) -> bool {
    &&& markers::open_names(first.open) == markers::open_names(second.open)
    &&& markers::section_names(first.markers.sections) == markers::section_names(
        second.markers.sections,
    )
}

pub proof fn lemma_with_section_names(sections: Seq<SectionModel>, section: SectionModel)
    ensures
        ({
            let names = markers::section_names(sections);
            markers::section_names(markers::with_section(sections, section)) == match markers::index_of(
                names,
                section.name,
            ) {
                Some(_) => names,
                None => names.insert(markers::place(names, section.name), section.name),
            }
        }),
{
    let names = markers::section_names(sections);
    markers::lemma_index_of(names, section.name);
    markers::lemma_place(names, section.name);
    match markers::index_of(names, section.name) {
        Some(i) => {
            assert(markers::section_names(sections.update(i, section)) =~= names);
        },
        None => {
            let p = markers::place(names, section.name);
            assert(markers::section_names(sections.insert(p, section)) =~= names.insert(
                p,
                section.name,
            ));
        },
    }
}

pub proof fn lemma_record_names(
    marker: Seq<char>,
    first_span: SpanModel,
    first: ScanModel,
    second_span: SpanModel,
    second: ScanModel,
)
    requires
        same_names(first, second),
    ensures
        match (
            markers::record_spec(marker, first_span, first),
            markers::record_spec(marker, second_span, second),
        ) {
            (Ok(a), Ok(b)) => same_names(a, b),
            (Err(_), Err(_)) => true,
            _ => false,
        },
{
    let names = markers::open_names(first.open);
    if markers::file_options_spec(marker) is Some {
    } else if let Some((name, options_text)) = markers::start_spec(marker) {
        markers::lemma_place(names, name);
        let p = markers::place(names, name);
        if let (Ok(a), Ok(b)) = (
            markers::record_start(name, first_span, options_text, first),
            markers::record_start(name, second_span, options_text, second),
        ) {
            assert(markers::open_names(a.open) =~= names.insert(p, name));
            assert(markers::open_names(b.open) =~= names.insert(p, name));
        }
    } else if let Some(name) = markers::end_spec(marker) {
        markers::lemma_index_of(names, name);
        if let Some(at) = markers::index_of(names, name) {
            let a = markers::record_end(name, first_span, first)->Ok_0;
            let b = markers::record_end(name, second_span, second)->Ok_0;
            assert(first.open.len() == names.len());
            assert(second.open.len() == markers::open_names(second.open).len());
            assert(markers::open_names(a.open) =~= names.remove(at));
            assert(markers::open_names(b.open) =~= names.remove(at));
            lemma_with_section_names(
                first.markers.sections,
                SectionModel {
                    name,
                    header: first.open[at].header,
                    content_from: first.open[at].header.marker_to,
                    content_to: first_span.last_line_start,
                    end_line: first_span.last_line,
                },
            );
            lemma_with_section_names(
                second.markers.sections,
                SectionModel {
                    name,
                    header: second.open[at].header,
                    content_from: second.open[at].header.marker_to,
                    content_to: second_span.last_line_start,
                    end_line: second_span.last_line,
                },
            );
        }
    }
}

/// The same lines, up to a line that continues nothing, hold the same continuations
proof fn lemma_same_count(first: Seq<Seq<char>>, second: Seq<Seq<char>>, i: int, stop: int)
    requires
        0 <= i <= stop <= first.len(),
        stop <= second.len(),
        first.take(stop) == second.take(stop),
        !markers::continues(first, stop),
        !markers::continues(second, stop),
    ensures
        markers::continuation_count(first, i) == markers::continuation_count(second, i),
        i + markers::continuation_count(first, i) <= stop,
    decreases stop - i,
{
    if i < stop {
        assert(first[i] == first.take(stop)[i]);
        assert(second[i] == second.take(stop)[i]);
        assert(markers::continues(first, i) == markers::continues(second, i));
        lemma_same_count(first, second, i + 1, stop);
    }
}

pub proof fn lemma_same_body(
    first: Seq<Seq<char>>,
    second: Seq<Seq<char>>,
    i: int,
    stop: int,
    after: Seq<char>,
)
    requires
        0 <= i < stop <= first.len(),
        stop <= second.len(),
        first.take(stop) == second.take(stop),
        !markers::continues(first, stop),
        !markers::continues(second, stop),
    ensures
        markers::body_spec(first, i, after) == markers::body_spec(second, i, after),
        markers::body_spec(first, i, after).1 < stop,
        markers::body_spec(first, i, after).1 >= i,
{
    lemma_same_count(first, second, i + 1, stop);
    let count = markers::continuation_count(first, i + 1);
    assert(markers::continuation_texts(first, i + 1, count) =~= markers::continuation_texts(
        second,
        i + 1,
        count,
    )) by {
        assert forall|m: int| i < m < stop implies #[trigger] first[m] == second[m] by {
            assert(first[m] == first.take(stop)[m]);
            assert(second[m] == second.take(stop)[m]);
        }
    }
}

/// The same lines hold sections of the same names
proof fn lemma_scan_names(
    first: Seq<Seq<char>>,
    first_total: nat,
    first_scan: ScanModel,
    second: Seq<Seq<char>>,
    second_total: nat,
    second_scan: ScanModel,
    i: int,
    stop: int,
)
    requires
        0 <= i <= stop <= first.len(),
        stop <= second.len(),
        first.take(stop) == second.take(stop),
        !markers::continues(first, stop),
        !markers::continues(second, stop),
        same_names(first_scan, second_scan),
    ensures
        same_names(
            scan_to(first, first_total, i, stop, first_scan),
            scan_to(second, second_total, i, stop, second_scan),
        ),
    decreases stop - i,
{
    if i < stop {
        assert(first[i] == first.take(stop)[i]);
        assert(second[i] == second.take(stop)[i]);
        match text::split_once_spec(first[i], markers::MARKER_PREFIX@) {
            None => {
                lemma_scan_names(
                    first,
                    first_total,
                    first_scan,
                    second,
                    second_total,
                    second_scan,
                    i + 1,
                    stop,
                );
            },
            Some((_, after)) => {
                lemma_same_body(first, second, i, stop, after);
                let (marker, last) = markers::body_spec(first, i, after);
                lemma_record_names(
                    marker,
                    markers::span_spec(first, first_total, i, last),
                    first_scan,
                    markers::span_spec(second, second_total, i, last),
                    second_scan,
                );
                lemma_scan_names(
                    first,
                    first_total,
                    after_marker(first, first_total, i, after, first_scan),
                    second,
                    second_total,
                    after_marker(second, second_total, i, after, second_scan),
                    last + 1,
                    stop,
                );
            },
        }
    }
}

pub proof fn lemma_record_keeps_name(
    marker: Seq<char>,
    span: SpanModel,
    scan: ScanModel,
    name: Seq<char>,
)
    requires
        knows(scan, name),
    ensures
        markers::record_spec(marker, span, scan) matches Ok(next) ==> knows(next, name),
{
    let open = markers::open_names(scan.open);
    let closed = markers::section_names(scan.markers.sections);
    if markers::file_options_spec(marker) is Some {
    } else if let Some((other, options_text)) = markers::start_spec(marker) {
        if let Ok(next) = markers::record_start(other, span, options_text, scan) {
            markers::lemma_place(open, other);
            let p = markers::place(open, other);
            assert(markers::open_names(next.open) =~= open.insert(p, other));
            if open.contains(name) {
                let k = choose|k: int| 0 <= k < open.len() && open[k] == name;
                let m = if k < p {
                    k
                } else {
                    k + 1
                };
                assert(open.insert(p, other)[m] == name);
            }
        }
    } else if let Some(other) = markers::end_spec(marker) {
        markers::lemma_index_of(open, other);
        if let Some(at) = markers::index_of(open, other) {
            let next = markers::record_end(other, span, scan)->Ok_0;
            assert(markers::open_names(next.open) =~= open.remove(at));
            let section = SectionModel {
                name: other,
                header: scan.open[at].header,
                content_from: scan.open[at].header.marker_to,
                content_to: span.last_line_start,
                end_line: span.last_line,
            };
            lemma_with_section_names(scan.markers.sections, section);
            markers::lemma_index_of(closed, other);
            markers::lemma_place(closed, other);
            let p = markers::place(closed, other);
            if closed.contains(name) {
                let k = choose|k: int| 0 <= k < closed.len() && closed[k] == name;
                if markers::index_of(closed, other) is None {
                    let m = if k < p {
                        k
                    } else {
                        k + 1
                    };
                    assert(closed.insert(p, other)[m] == name);
                }
            } else if name == other {
                if markers::index_of(closed, other) is None {
                    assert(closed.insert(p, other)[p] == name);
                }
            } else {
                let k = choose|k: int| 0 <= k < open.len() && open[k] == name;
                let m = if k < at {
                    k
                } else {
                    k - 1
                };
                assert(k != at);
                assert(open.remove(at)[m] == name);
            }
        }
    }
}

/// A name once found stays found
pub proof fn lemma_scan_keeps_name(
    list: Seq<Seq<char>>,
    total: nat,
    i: int,
    scan: ScanModel,
    name: Seq<char>,
)
    requires
        0 <= i <= list.len(),
        knows(scan, name),
    ensures
        knows(markers::scan_spec(list, total, i, scan), name),
    decreases list.len() - i,
{
    if i < list.len() {
        match text::split_once_spec(list[i], markers::MARKER_PREFIX@) {
            None => {
                lemma_scan_keeps_name(list, total, i + 1, scan, name);
            },
            Some((_, after)) => {
                markers::lemma_continuation_count(list, i + 1);
                let (marker, last) = markers::body_spec(list, i, after);
                let span = markers::span_spec(list, total, i, last);
                lemma_record_keeps_name(marker, span, scan, name);
                lemma_scan_keeps_name(
                    list,
                    total,
                    last + 1,
                    after_marker(list, total, i, after, scan),
                    name,
                );
            },
        }
    }
}

/// Lines without markers add nothing
pub proof fn lemma_scan_skips(list: Seq<Seq<char>>, total: nat, i: int, stop: int, scan: ScanModel)
    requires
        0 <= i <= stop <= list.len(),
        forall|k: int|
            i <= k < stop ==> !text::occurs(#[trigger] list[k], markers::MARKER_PREFIX@),
    ensures
        markers::scan_spec(list, total, i, scan) == markers::scan_spec(list, total, stop, scan),
    decreases stop - i,
{
    if i < stop {
        text::lemma_find(list[i], markers::MARKER_PREFIX@);
        assert(!text::occurs(list[i], markers::MARKER_PREFIX@));
        if let Some(k) = text::find_spec(list[i], markers::MARKER_PREFIX@) {
            assert(text::occurs_at(list[i], markers::MARKER_PREFIX@, k));
        }
        lemma_scan_skips(list, total, i + 1, stop, scan);
    }
}

/// Whether a section is known closed, and not open again
pub open spec fn holds_section(scan: ScanModel, section: SectionModel) -> bool {
    &&& markers::section_spec(scan.markers, section.name) == Some(section)
    &&& !markers::open_names(scan.open).contains(section.name)
}

pub proof fn lemma_with_section_other(
    sections: Seq<SectionModel>,
    added: SectionModel,
    name: Seq<char>,
)
    requires
        added.name != name,
    ensures
        markers::index_of(
            markers::section_names(markers::with_section(sections, added)),
            name,
        ) is None == markers::index_of(markers::section_names(sections), name) is None,
        markers::index_of(markers::section_names(sections), name) matches Some(k)
            ==> markers::index_of(
            markers::section_names(markers::with_section(sections, added)),
            name,
        ) matches Some(m) && markers::with_section(sections, added)[m] == sections[k],
{
    let names = markers::section_names(sections);
    let after = markers::with_section(sections, added);
    let after_names = markers::section_names(after);
    lemma_with_section_names(sections, added);
    markers::lemma_index_of(names, name);
    markers::lemma_index_of(names, added.name);
    markers::lemma_index_of(after_names, name);
    markers::lemma_place(names, added.name);
    let p = markers::place(names, added.name);
    match markers::index_of(names, added.name) {
        Some(i) => {
            if let Some(k) = markers::index_of(names, name) {
                markers::lemma_index_of_is(after_names, name, k);
                assert(names[k] == name);
                assert(names[i] == added.name);
                assert(after[k] == sections[k]);
            }
        },
        None => {
            match markers::index_of(names, name) {
                Some(k) => {
                    let m = if k < p {
                        k
                    } else {
                        k + 1
                    };
                    assert(after_names[m] == name);
                    assert forall|j: int| 0 <= j < m implies after_names[j] != name by {
                        if j < p {
                            assert(after_names[j] == names[j]);
                        } else if j > p {
                            assert(after_names[j] == names[j - 1]);
                        }
                    }
                    markers::lemma_index_of_is(after_names, name, m);
                    assert(after[m] == sections[k]);
                },
                None => {
                    if after_names.contains(name) {
                        let m = choose|m: int| 0 <= m < after_names.len() && after_names[m] == name;
                        if m < p {
                            assert(names[m] == name);
                        } else if m > p {
                            assert(names[m - 1] == name);
                        }
                        assert(names.contains(name));
                    }
                },
            }
        },
    }
}

pub proof fn lemma_record_holds(
    marker: Seq<char>,
    span: SpanModel,
    scan: ScanModel,
    section: SectionModel,
)
    requires
        holds_section(scan, section),
    ensures
        markers::record_spec(marker, span, scan) matches Ok(next) ==> holds_section(next, section),
{
    let open = markers::open_names(scan.open);
    let closed = markers::section_names(scan.markers.sections);
    markers::lemma_index_of(closed, section.name);
    if markers::file_options_spec(marker) is Some {
    } else if let Some((other, options_text)) = markers::start_spec(marker) {
        if let Ok(next) = markers::record_start(other, span, options_text, scan) {
            markers::lemma_place(open, other);
            let p = markers::place(open, other);
            let names = markers::open_names(next.open);
            assert(names =~= open.insert(p, other));
            assert(other != section.name);
            if names.contains(section.name) {
                let m = choose|m: int| 0 <= m < names.len() && names[m] == section.name;
                if m < p {
                    assert(open[m] == section.name);
                } else if m > p {
                    assert(open[m - 1] == section.name);
                }
                assert(open.contains(section.name));
            }
        }
    } else if let Some(other) = markers::end_spec(marker) {
        markers::lemma_index_of(open, other);
        if let Some(at) = markers::index_of(open, other) {
            let next = markers::record_end(other, span, scan)->Ok_0;
            let names = markers::open_names(next.open);
            assert(names =~= open.remove(at));
            assert(open.contains(open[at]));
            assert(other != section.name);
            let added = SectionModel {
                name: other,
                header: scan.open[at].header,
                content_from: scan.open[at].header.marker_to,
                content_to: span.last_line_start,
                end_line: span.last_line,
            };
            lemma_with_section_other(scan.markers.sections, added, section.name);
            if names.contains(section.name) {
                let m = choose|m: int| 0 <= m < names.len() && names[m] == section.name;
                let k = if m < at {
                    m
                } else {
                    m + 1
                };
                assert(open[k] == section.name);
                assert(open.contains(section.name));
            }
        }
    }
}

/// A closed section stays as it is
pub proof fn lemma_scan_holds(
    list: Seq<Seq<char>>,
    total: nat,
    i: int,
    scan: ScanModel,
    section: SectionModel,
)
    requires
        0 <= i <= list.len(),
        holds_section(scan, section),
    ensures
        holds_section(markers::scan_spec(list, total, i, scan), section),
    decreases list.len() - i,
{
    if i < list.len() {
        match text::split_once_spec(list[i], markers::MARKER_PREFIX@) {
            None => {
                lemma_scan_holds(list, total, i + 1, scan, section);
            },
            Some((_, after)) => {
                markers::lemma_continuation_count(list, i + 1);
                let (marker, last) = markers::body_spec(list, i, after);
                let span = markers::span_spec(list, total, i, last);
                lemma_record_holds(marker, span, scan, section);
                lemma_scan_holds(
                    list,
                    total,
                    last + 1,
                    after_marker(list, total, i, after, scan),
                    section,
                );
            },
        }
    }
}

// ---------------------------------------------------------------------------
// Lines of markers
// ---------------------------------------------------------------------------

/// Text that starts with no `@` holds no marker before another text does
proof fn lemma_marker_after(before: Seq<char>, rest: Seq<char>)
    requires
        !before.contains('@'),
    ensures
        text::find_spec(before + rest, markers::MARKER_PREFIX@) == match text::find_spec(
            rest,
            markers::MARKER_PREFIX@,
        ) {
            Some(i) => Some(before.len() + i),
            None => None,
        },
    decreases before.len(),
{
    reveal_strlit("@docs-as-code:");
    let prefix = markers::MARKER_PREFIX@;
    let s = before + rest;
    if before.len() == 0 {
        assert(s =~= rest);
    } else {
        assert(before.contains(before[0]));
        if prefix.is_prefix_of(s) {
            assert(s.take(prefix.len() as int)[0] == prefix[0]);
            assert(s[0] == '@');
        }
        assert(s.drop_first() =~= before.drop_first() + rest);
        assert forall|k: int| 0 <= k < before.drop_first().len() implies before.drop_first()[k]
            != '@' by {
            assert(before.contains(before[k + 1]));
        }
        lemma_marker_after(before.drop_first(), rest);
    }
}

/// A line with a marker on it
proof fn lemma_marker_line(before: Seq<char>, after: Seq<char>)
    requires
        !before.contains('@'),
    ensures
        text::split_once_spec(
            before + (markers::MARKER_PREFIX@ + after),
            markers::MARKER_PREFIX@,
        ) == Some((before, after)),
        text::occurs(
            before + (markers::MARKER_PREFIX@ + after),
            markers::MARKER_PREFIX@,
        ),
{
    let prefix = markers::MARKER_PREFIX@;
    let rest = prefix + after;
    let s = before + rest;
    assert(prefix.is_prefix_of(rest)) by {
        assert(rest.take(prefix.len() as int) =~= prefix);
    }
    lemma_marker_after(before, rest);
    assert(s.take(before.len() as int) =~= before);
    assert(s.skip((before.len() + prefix.len()) as int) =~= after);
    text::lemma_find(s, prefix);
    assert(text::occurs_at(s, prefix, before.len() as int));
}

/// Text after a space, trimmed
proof fn lemma_trim_space(s: Seq<char>)
    requires
        s.len() > 0,
        !text::is_white(s[0]),
        !text::is_white(s.last()),
    ensures
        text::trimmed(seq![' '] + s) == s,
{
    let t = seq![' '] + s;
    text::lemma_span_is(t, CharClass::White, 1);
    assert(t.skip(1) =~= s);
    text::lemma_end_span_is(s, CharClass::White, 0);
    assert(s.take(s.len() as int) =~= s);
}

/// Whether `s` is whitespace
pub open spec fn all_white(s: Seq<char>) -> bool {
    forall|i: int| 0 <= i < s.len() ==> text::is_white(#[trigger] s[i])
}

proof fn lemma_white_has_no_at(indent: Seq<char>)
    requires
        all_white(indent),
    ensures
        !(indent + "# "@).contains('@'),
        !(indent + "#   | "@).contains('@'),
{
    reveal_strlit("# ");
    reveal_strlit("#   | ");
    assert forall|i: int| 0 <= i < (indent + "# "@).len() implies (indent + "# "@)[i] != '@' by {
        if i < indent.len() {
            assert(text::is_white(indent[i]));
        }
    }
    assert forall|i: int| 0 <= i < (indent + "#   | "@).len() implies (indent + "#   | "@)[i]
        != '@' by {
        if i < indent.len() {
            assert(text::is_white(indent[i]));
        }
    }
}

/// A continuation line gives its option, and holds no marker
pub proof fn lemma_continuation_line(indent: Seq<char>, option: OptionModel)
    requires
        all_white(indent),
        fits_a_line(option),
    ensures
        !text::occurs(apply::continuation_line(indent, option), markers::MARKER_PREFIX@),
        markers::continuation_spec(apply::continuation_line(indent, option)) == Some(
            "| "@ + options::option_text(option),
        ),
{
    reveal_strlit("#   | ");
    reveal_strlit("| ");
    let written = options::option_text(option);
    let line = apply::continuation_line(indent, option);
    lemma_white_has_no_at(indent);
    lemma_marker_after(indent + "#   | "@, written);
    text::lemma_find(written, markers::MARKER_PREFIX@);
    text::lemma_find(line, markers::MARKER_PREFIX@);
    if let Some(k) = text::find_spec(written, markers::MARKER_PREFIX@) {
        assert(text::occurs_at(written, markers::MARKER_PREFIX@, k));
    }
    let n = indent.len() as int;
    assert forall|i: int| 0 <= i < n implies CharClass::White.has(line[i]) by {
        assert(text::is_white(indent[i]));
    }
    assert(line[n] == '#');
    text::lemma_span_is(line, CharClass::White, n);
    let comment = line.skip(n);
    assert(comment[0] == '#');
    let rest = comment.skip(1);
    assert(rest =~= seq![' ', ' ', ' '] + ("| "@ + written));
    assert(rest[3] == '|');
    text::lemma_span_is(rest, CharClass::White, 3);
    assert(rest.skip(3) =~= "| "@ + written);
}

/// Options written one after the other, and one more
pub proof fn lemma_written_push(list: Seq<OptionModel>)
    requires
        list.len() > 0,
    ensures
        option_laws::written(list) == option_laws::written(list.drop_last()) + " | "@
            + options::option_text(list.last()),
    decreases list.len(),
{
    if list.len() == 1 {
        assert(option_laws::written(list.drop_first()) =~= Seq::empty());
        assert(option_laws::written(list.drop_last()) =~= Seq::empty());
        assert(option_laws::written(list) =~= option_laws::written(list.drop_last()) + " | "@
            + options::option_text(list.last()));
    } else {
        lemma_written_push(list.drop_first());
        assert(list.drop_first().drop_last() =~= list.drop_last().drop_first());
        assert(list.drop_first().last() == list.last());
        assert(option_laws::written(list) =~= option_laws::written(list.drop_last()) + " | "@
            + options::option_text(list.last()));
    }
}

/// A marker's text with its continuations is the marker with options after it
pub proof fn lemma_joined(marker: Seq<char>, list: Seq<OptionModel>)
    ensures
        lines::join(
            seq![marker] + Seq::new(
                list.len(),
                |i: int| "| "@ + options::option_text(list[i]),
            ),
            " "@,
        ) == marker + option_laws::written(list),
    decreases list.len(),
{
    reveal_strlit(" ");
    reveal_strlit("| ");
    reveal_strlit(" | ");
    let texts = Seq::new(list.len(), |i: int| "| "@ + options::option_text(list[i]));
    let all = seq![marker] + texts;
    if list.len() == 0 {
        assert(all =~= seq![marker]);
        assert(marker + option_laws::written(list) =~= marker);
    } else {
        let head = list.drop_last();
        let head_texts = Seq::new(head.len(), |i: int| "| "@ + options::option_text(head[i]));
        assert(all.drop_last() =~= seq![marker] + head_texts);
        lemma_joined(marker, head);
        lemma_written_push(list);
        assert(lines::join(all, " "@) =~= marker + option_laws::written(list));
    }
}

/// Options that fit lines are written without line feeds
pub proof fn lemma_written_fits(list: Seq<OptionModel>)
    requires
        fit_lines(list),
    ensures
        !option_laws::written(list).contains('\n'),
    decreases list.len(),
{
    reveal_strlit(" | ");
    if list.len() > 0 {
        lemma_written_push(list);
        let head = list.drop_last();
        assert forall|i: int| 0 <= i < head.len() implies fits_a_line(#[trigger] head[i]) by {
            assert(head[i] == list[i]);
        }
        lemma_written_fits(head);
        let s = option_laws::written(list);
        let first = option_laws::written(head);
        let last = options::option_text(list.last());
        assert(fits_a_line(list[list.len() - 1]));
        assert forall|i: int| 0 <= i < s.len() implies s[i] != '\n' by {
            if i < first.len() {
                assert(first.contains(first[i]));
            } else if i >= first.len() + 3 {
                assert(last.contains(last[i - first.len() - 3]));
            }
        }
    }
}

pub proof fn lemma_valid(list: Seq<OptionModel>)
    requires
        fit_lines(list),
    ensures
        forall|i: int| 0 <= i < list.len() ==> option_laws::is_valid(#[trigger] list[i]),
{
    assert forall|i: int| 0 <= i < list.len() implies option_laws::is_valid(#[trigger] list[i]) by {
        assert(fits_a_line(list[i]));
    }
}

/// Continuation lines after a marker give its options
proof fn lemma_marker_body(
    list: Seq<Seq<char>>,
    f: int,
    marker: Seq<char>,
    indent: Seq<char>,
    added: Seq<OptionModel>,
)
    requires
        0 <= f,
        f + 1 + added.len() <= list.len(),
        all_white(indent),
        fit_lines(added),
        list.subrange(f + 1, f + 1 + added.len()) == edits::option_lines(indent, added),
        !markers::continues(list, f + 1 + added.len()),
        markers::takes_continuations(marker),
        marker.len() > 0,
        !text::is_white(marker[0]),
        !text::is_white(marker.last()),
    ensures
        markers::body_spec(list, f, seq![' '] + marker) == (
            marker + option_laws::written(added),
            f + added.len(),
        ),
{
    lemma_trim_space(marker);
    let option_lines = edits::option_lines(indent, added);
    assert forall|k: int| f + 1 <= k < f + 1 + added.len() implies markers::continues(
        list,
        k,
    ) && list[k] == apply::continuation_line(indent, added[k - f - 1]) by {
        assert(list[k] == list.subrange(f + 1, f + 1 + added.len())[k - f - 1]);
        assert(fits_a_line(added[k - f - 1]));
        lemma_continuation_line(indent, added[k - f - 1]);
    }
    markers::lemma_continuation_count_is(list, f + 1, added.len() as int);
    let texts = Seq::new(added.len(), |i: int| "| "@ + options::option_text(added[i]));
    assert(markers::continuation_texts(list, f + 1, added.len()) =~= texts) by {
        assert forall|k: int| 0 <= k < added.len() implies markers::continuation_spec(
            list[f + 1 + k],
        )->0 == #[trigger] texts[k] by {
            assert(markers::continues(list, f + 1 + k));
            assert(fits_a_line(added[k]));
            lemma_continuation_line(indent, added[k]);
        }
    }
    lemma_joined(marker, added);
}

/// A name in quotes, and what follows it
pub proof fn lemma_named(before: Seq<char>, name: Seq<char>, after: Seq<char>)
    requires
        is_section_name(name),
        !after.contains('\n'),
    ensures
        markers::named_spec(before + name + "\""@ + after, before) == Some((name, after)),
{
    reveal_strlit("\"");
    let s = before + name + "\""@ + after;
    assert(before.is_prefix_of(s)) by {
        assert(s.take(before.len() as int) =~= before);
    }
    let rest = name + "\""@ + after;
    assert(s.skip(before.len() as int) =~= rest);
    let n = name.len() as int;
    assert(rest.subrange(n, n + 1) =~= "\""@);
    assert forall|j: int| 0 <= j < n implies !text::occurs_at(rest, "\""@, j) by {
        assert(name.contains(name[j]));
        if text::occurs_at(rest, "\""@, j) {
            assert(rest.subrange(j, j + 1)[0] == '"');
        }
    }
    text::lemma_find_is(rest, "\""@, n);
    assert(rest.take(n) =~= name);
    assert(rest.skip(n + 1) =~= after);
}

/// A section's start marker, with options after it
proof fn lemma_start_marker(name: Seq<char>, added: Seq<OptionModel>)
    requires
        is_section_name(name),
        fit_lines(added),
    ensures
        ({
            let marker = "start section \""@ + name + "\""@;
            let whole = marker + option_laws::written(added);
            &&& markers::takes_continuations(marker)
            &&& marker.len() > 0
            &&& !text::is_white(marker[0])
            &&& !text::is_white(marker.last())
            &&& markers::file_options_spec(whole) is None
            &&& markers::start_spec(whole) == Some((name, option_laws::written(added)))
            &&& options::options_spec(option_laws::written(added)) == Ok::<_, Seq<char>>(added)
        }),
{
    reveal_strlit("start section \"");
    reveal_strlit("start section");
    reveal_strlit("\"");
    reveal_strlit("file");
    let marker = "start section \""@ + name + "\""@;
    let whole = marker + option_laws::written(added);
    assert("start section"@.is_prefix_of(marker)) by {
        assert(marker.take(13) =~= "start section"@);
    }
    assert(marker[0] == 's');
    assert(marker.last() == '"');
    if "file"@.is_prefix_of(whole) {
        assert(whole.take(4)[0] == 'f');
        assert(whole[0] == 's');
    }
    lemma_written_fits(added);
    lemma_named("start section \""@, name, option_laws::written(added));
    lemma_valid(added);
    option_laws::law_options_read_back(added);
}

/// A section's end marker
proof fn lemma_end_marker(name: Seq<char>)
    requires
        is_section_name(name),
    ensures
        ({
            let marker = "end section \""@ + name + "\""@;
            &&& !markers::takes_continuations(marker)
            &&& marker.len() > 0
            &&& !text::is_white(marker[0])
            &&& !text::is_white(marker.last())
            &&& markers::file_options_spec(marker) is None
            &&& markers::start_spec(marker) is None
            &&& markers::end_spec(marker) == Some(name)
        }),
{
    reveal_strlit("end section \"");
    reveal_strlit("start section \"");
    reveal_strlit("start section");
    reveal_strlit("\"");
    reveal_strlit("file");
    let marker = "end section \""@ + name + "\""@;
    assert(marker[0] == 'e');
    assert(marker.last() == '"');
    if "file"@.is_prefix_of(marker) {
        assert(marker.take(4)[0] == 'f');
    }
    if "start section"@.is_prefix_of(marker) {
        assert(marker.take(13)[0] == 's');
    }
    if "start section \""@.is_prefix_of(marker) {
        assert(marker.take("start section \""@.len() as int)[0] == 's');
    }
    lemma_named("end section \""@, name, Seq::empty());
    assert(marker + Seq::<char>::empty() =~= marker);
}

// ---------------------------------------------------------------------------
// Sections
// ---------------------------------------------------------------------------

/// Lines with the markers of a section hold no line feeds
proof fn lemma_marked_lines(
    list: Seq<Seq<char>>,
    name: Seq<char>,
    f: int,
    c: int,
    added: Seq<OptionModel>,
)
    requires
        0 <= f,
        0 <= c,
        f + c <= list.len(),
        is_section_name(name),
        fit_lines(added),
        forall|i: int| 0 <= i < list.len() ==> !(#[trigger] list[i]).contains('\n'),
    ensures
        all_white(edits::indent_of(list.skip(f))),
        forall|i: int|
            0 <= i < edits::marked_lines(list, name, f, c, added).len()
                ==> !(#[trigger] edits::marked_lines(list, name, f, c, added)[i]).contains('\n'),
{
    let indent = edits::indent_of(list.skip(f));
    if f < list.len() {
        let line = list.skip(f)[0];
        assert(line == list[f]);
        text::lemma_span(line, CharClass::White);
        assert forall|i: int| 0 <= i < indent.len() implies text::is_white(
            #[trigger] indent[i],
        ) by {
            assert(CharClass::White.has(line[i]));
        }
        assert forall|i: int| 0 <= i < indent.len() implies indent[i] != '\n' by {
            assert(line.contains(line[i]));
        }
    }
    assert(!indent.contains('\n'));
    let all = edits::marked_lines(list, name, f, c, added);
    assert forall|i: int| 0 <= i < all.len() implies !(#[trigger] all[i]).contains('\n') by {
        let k = added.len();
        if i < f {
            assert(all[i] == list[i]);
        } else if i == f {
            assert(all[i] == indent + "# "@ + markers::section_start_text(name));
            lemma_start_line_fits(indent, name);
        } else if i < f + 1 + k {
            let option = added[i - f - 1];
            assert(all[i] == apply::continuation_line(indent, option));
            assert(fits_a_line(option));
            lemma_option_line_fits(indent, option);
        } else if i < f + 1 + k + c {
            assert(all[i] == list[i - 1 - k]);
        } else if i == f + 1 + k + c {
            assert(all[i] == edits::end_marker_line(indent, name));
            lemma_end_line_fits(indent, name);
        } else {
            assert(all[i] == list[i - 2 - k]);
        }
    }
}

proof fn lemma_concat_fits(first: Seq<char>, second: Seq<char>)
    requires
        !first.contains('\n'),
        !second.contains('\n'),
    ensures
        !(first + second).contains('\n'),
{
    assert forall|i: int| 0 <= i < (first + second).len() implies (first + second)[i] != '\n' by {
        if i < first.len() {
            assert(first.contains(first[i]));
        } else {
            assert(second.contains(second[i - first.len()]));
        }
    }
}

proof fn lemma_start_line_fits(indent: Seq<char>, name: Seq<char>)
    requires
        !indent.contains('\n'),
        !name.contains('\n'),
    ensures
        !(indent + "# "@ + markers::section_start_text(name)).contains('\n'),
{
    reveal_strlit("# ");
    reveal_strlit("@docs-as-code:");
    reveal_strlit(" start section \"");
    reveal_strlit("\"");
    lemma_concat_fits(indent, "# "@);
    lemma_concat_fits(markers::MARKER_PREFIX@, " start section \""@);
    lemma_concat_fits(markers::MARKER_PREFIX@ + " start section \""@, name);
    lemma_concat_fits(markers::MARKER_PREFIX@ + " start section \""@ + name, "\""@);
    lemma_concat_fits(indent + "# "@, markers::section_start_text(name));
}

proof fn lemma_end_line_fits(indent: Seq<char>, name: Seq<char>)
    requires
        !indent.contains('\n'),
        !name.contains('\n'),
    ensures
        !edits::end_marker_line(indent, name).contains('\n'),
{
    reveal_strlit("# ");
    reveal_strlit("@docs-as-code:");
    reveal_strlit(" end section \"");
    reveal_strlit("\"");
    lemma_concat_fits(indent, "# "@);
    lemma_concat_fits(markers::MARKER_PREFIX@, " end section \""@);
    lemma_concat_fits(markers::MARKER_PREFIX@ + " end section \""@, name);
    lemma_concat_fits(markers::MARKER_PREFIX@ + " end section \""@ + name, "\""@);
    lemma_concat_fits(indent + "# "@, markers::section_end_text(name));
}

pub proof fn lemma_option_line_fits(indent: Seq<char>, option: OptionModel)
    requires
        !indent.contains('\n'),
        fits_a_line(option),
    ensures
        !apply::continuation_line(indent, option).contains('\n'),
{
    reveal_strlit("#   | ");
    lemma_concat_fits(indent, "#   | "@);
    lemma_concat_fits(indent + "#   | "@, options::option_text(option));
}

/// A section's start marker opens it
proof fn lemma_scan_start(
    list: Seq<Seq<char>>,
    total: nat,
    f: int,
    indent: Seq<char>,
    name: Seq<char>,
    added: Seq<OptionModel>,
    scan: ScanModel,
) -> (next: ScanModel)
    requires
        0 <= f,
        f + 1 + added.len() <= list.len(),
        all_white(indent),
        is_section_name(name),
        fit_lines(added),
        list[f] == indent + "# "@ + markers::section_start_text(name),
        list.subrange(f + 1, f + 1 + added.len()) == edits::option_lines(indent, added),
        !markers::continues(list, f + 1 + added.len()),
        !knows(scan, name),
    ensures
        markers::scan_spec(list, total, f, scan) == markers::scan_spec(
            list,
            total,
            f + 1 + added.len(),
            next,
        ),
        markers::index_of(markers::open_names(next.open), name) matches Some(at)
            && next.open[at].name == name && next.open[at].header.options == added
            && next.open[at].header.last_line == f + 1 + added.len()
            && (forall|j: int| 0 <= j < next.open.len() && j != at ==> (
        #[trigger] next.open[j]).name != name),
        next.markers == scan.markers,
{
    let marker = "start section \""@ + name + "\""@;
    lemma_start_marker(name, added);
    lemma_white_has_no_at(indent);
    reveal_strlit(" start section \"");
    reveal_strlit("start section \"");
    assert(" start section \""@ =~= seq![' '] + "start section \""@);
    assert(list[f] =~= (indent + "# "@) + (markers::MARKER_PREFIX@ + (seq![' '] + marker)));
    lemma_marker_line(indent + "# "@, seq![' '] + marker);
    lemma_marker_body(list, f, marker, indent, added);
    let last = f + added.len();
    let span = markers::span_spec(list, total, f, last);
    let whole = marker + option_laws::written(added);
    let next = markers::record_spec(whole, span, scan)->Ok_0;
    let names = markers::open_names(scan.open);
    markers::lemma_place(names, name);
    let p = markers::place(names, name);
    let after_names = markers::open_names(next.open);
    assert(after_names =~= names.insert(p, name));
    assert forall|j: int| 0 <= j < next.open.len() && j != p implies (
    #[trigger] next.open[j]).name != name by {
        if j < p {
            assert(names[j] == scan.open[j].name);
            assert(names.contains(names[j]));
        } else {
            assert(names[j - 1] == scan.open[j - 1].name);
            assert(names.contains(names[j - 1]));
        }
    }
    assert forall|j: int| 0 <= j < p implies after_names[j] != name by {
        assert(after_names[j] == next.open[j].name);
    }
    markers::lemma_index_of_is(after_names, name, p);
    next
}

/// A section's end marker closes it
proof fn lemma_scan_end(
    list: Seq<Seq<char>>,
    total: nat,
    e: int,
    indent: Seq<char>,
    name: Seq<char>,
    scan: ScanModel,
) -> (next: ScanModel)
    requires
        0 <= e < list.len(),
        all_white(indent),
        is_section_name(name),
        list[e] == edits::end_marker_line(indent, name),
        markers::index_of(markers::open_names(scan.open), name) matches Some(at)
            && scan.open[at].name == name && (forall|j: int|
            0 <= j < scan.open.len() && j != at ==> (#[trigger] scan.open[j]).name != name),
        !markers::section_names(scan.markers.sections).contains(name),
    ensures
        markers::scan_spec(list, total, e, scan) == markers::scan_spec(list, total, e + 1, next),
        holds_section(
            next,
            SectionModel {
                name,
                header: scan.open[markers::index_of(
                    markers::open_names(scan.open),
                    name,
                )->0].header,
                content_from: scan.open[markers::index_of(
                    markers::open_names(scan.open),
                    name,
                )->0].header.marker_to,
                content_to: markers::line_start(list, e),
                end_line: (e + 1) as nat,
            },
        ),
{
    let marker = "end section \""@ + name + "\""@;
    lemma_end_marker(name);
    lemma_white_has_no_at(indent);
    reveal_strlit(" end section \"");
    reveal_strlit("end section \"");
    assert(" end section \""@ =~= seq![' '] + "end section \""@);
    assert(list[e] =~= (indent + "# "@) + (markers::MARKER_PREFIX@ + (seq![' '] + marker)));
    lemma_marker_line(indent + "# "@, seq![' '] + marker);
    lemma_trim_space(marker);
    let span = markers::span_spec(list, total, e, e);
    let next = markers::record_spec(marker, span, scan)->Ok_0;
    let names = markers::open_names(scan.open);
    markers::lemma_index_of(names, name);
    let at = markers::index_of(names, name)->0;
    let section = SectionModel {
        name,
        header: scan.open[at].header,
        content_from: scan.open[at].header.marker_to,
        content_to: span.last_line_start,
        end_line: span.last_line,
    };
    let closed = markers::section_names(scan.markers.sections);
    markers::lemma_index_of(closed, name);
    markers::lemma_place(closed, name);
    let p = markers::place(closed, name);
    lemma_with_section_names(scan.markers.sections, section);
    let after = markers::section_names(next.markers.sections);
    assert(after[p] == name);
    assert forall|j: int| 0 <= j < p implies after[j] != name by {
        assert(after[j] == closed[j]);
        assert(closed.contains(closed[j]));
    }
    markers::lemma_index_of_is(after, name, p);
    assert(next.markers.sections[p] == section);
    let open_after = markers::open_names(next.open);
    assert(open_after =~= names.remove(at));
    if open_after.contains(name) {
        let m = choose|m: int| 0 <= m < open_after.len() && open_after[m] == name;
        let k = if m < at {
            m
        } else {
            m + 1
        };
        assert(scan.open[k].name == name);
    }
    next
}

/// Lines marked as a section of a new name read back as that section, with the options
/// written and exactly those lines, as long as they hold no markers themselves and
/// don't start like options
#[verifier::rlimit(40)]
pub proof fn law_marked_section_reads_back(
    s: Seq<char>,
    name: Seq<char>,
    first_line: nat,
    line_count: nat,
    added: Seq<OptionModel>,
)
    requires
        1 <= first_line,
        first_line - 1 + line_count <= lines::split(s, '\n').len(),
        is_section_name(name),
        fit_lines(added),
        !uses_name(s, name),
        forall|i: int|
            first_line - 1 <= i < first_line - 1 + line_count ==> !text::occurs(
                #[trigger] lines::split(s, '\n')[i],
                markers::MARKER_PREFIX@,
            ),
        !markers::continues(lines::split(s, '\n'), first_line - 1),
    ensures
        edits::mark_section_spec(s, name, first_line, line_count, added) matches Ok(marked) && (
        markers::section_spec(markers::markers_spec(marked), name) matches Some(section)
            && section.header.options == added && (repo::marked_section_spec(
            marked,
            section,
        ) matches Ok(raw) && raw.raw == marker_laws::body(
            lines::split(s, '\n'),
            first_line - 1,
            first_line - 1 + line_count,
        ))),
{
    let list = lines::split(s, '\n');
    let f = first_line - 1;
    let c = line_count as int;
    let k = added.len() as int;
    let indent = edits::indent_of(list.skip(f));
    let all = edits::marked_lines(list, name, f, c, added);
    let e = f + 1 + k + c;
    lines::lemma_split(s, '\n');
    lemma_marked_lines(list, name, f, c, added);
    apply::lemma_newline_suffix(s);
    let marked = lines::join(all, "\n"@);
    lines::lemma_split_join(all, '\n');
    let total = bytes::byte_len(marked);
    // The lines before the section
    lemma_white_has_no_at(indent);
    lemma_start_and_end_lines(list, name, f, c, added);
    assert(!markers::continues(all, f));
    assert(all.take(f) =~= list.take(f));
    let old_total = bytes::byte_len(s);
    let before_old = scan_to(list, old_total, 0, f, empty_scan());
    let before_new = scan_to(all, total, 0, f, empty_scan());
    lemma_scan_split(list, old_total, 0, f, empty_scan());
    lemma_scan_split(all, total, 0, f, empty_scan());
    lemma_scan_names(list, old_total, empty_scan(), all, total, empty_scan(), 0, f);
    if knows(before_new, name) {
        lemma_scan_keeps_name(list, old_total, f, before_old, name);
    }
    // The section
    let opened = lemma_scan_start(all, total, f, indent, name, added, before_new);
    assert forall|i: int| f + 1 + k <= i < e implies !text::occurs(
        #[trigger] all[i],
        markers::MARKER_PREFIX@,
    ) by {
        assert(all[i] == list[i - 1 - k]);
    }
    lemma_scan_skips(all, total, f + 1 + k, e, opened);
    let closed = lemma_scan_end(all, total, e, indent, name, opened);
    // The lines after it
    let at = markers::index_of(markers::open_names(opened.open), name)->0;
    let section = SectionModel {
        name,
        header: opened.open[at].header,
        content_from: opened.open[at].header.marker_to,
        content_to: markers::line_start(all, e),
        end_line: (e + 1) as nat,
    };
    lemma_scan_holds(all, total, e + 1, closed, section);
    assert(markers::section_spec(markers::markers_spec(marked), name) == Some(section));
    // What it marks
    marker_laws::law_markers_are_whole_lines(marked);
    repo::law_marked_code_is_in_the_text(marked);
    let found = markers::markers_spec(marked);
    markers::lemma_index_of(markers::section_names(found.sections), name);
    let m = markers::index_of(markers::section_names(found.sections), name)->0;
    assert(found.sections[m] == section);
    assert(all.subrange(f + 1 + k, e) =~= list.subrange(f, f + c));
    assert(marker_laws::body(all, section.header.last_line as int, section.end_line - 1)
        == marker_laws::body(list, f, f + c));
}

/// Where the markers of a section stand among its lines
proof fn lemma_start_and_end_lines(
    list: Seq<Seq<char>>,
    name: Seq<char>,
    f: int,
    c: int,
    added: Seq<OptionModel>,
)
    requires
        0 <= f,
        0 <= c,
        f + c <= list.len(),
        is_section_name(name),
        fit_lines(added),
        all_white(edits::indent_of(list.skip(f))),
        !markers::continues(list, f),
        forall|i: int|
            f <= i < f + c ==> !text::occurs(#[trigger] list[i], markers::MARKER_PREFIX@),
    ensures
        ({
            let all = edits::marked_lines(list, name, f, c, added);
            let indent = edits::indent_of(list.skip(f));
            let k = added.len() as int;
            &&& all.len() == list.len() + 2 + k
            &&& all[f] == indent + "# "@ + markers::section_start_text(name)
            &&& all.subrange(f + 1, f + 1 + k) == edits::option_lines(indent, added)
            &&& all[f + 1 + k + c] == edits::end_marker_line(indent, name)
            &&& !markers::continues(all, f)
            &&& !markers::continues(all, f + 1 + k)
        }),
{
    let all = edits::marked_lines(list, name, f, c, added);
    let indent = edits::indent_of(list.skip(f));
    let k = added.len() as int;
    let e = f + 1 + k + c;
    assert(all.subrange(f + 1, f + 1 + k) =~= edits::option_lines(indent, added));
    lemma_white_has_no_at(indent);
    reveal_strlit(" start section \"");
    assert(all[f] =~= (indent + "# "@) + (markers::MARKER_PREFIX@ + (" start section \""@ + name
        + "\""@)));
    lemma_marker_line(indent + "# "@, " start section \""@ + name + "\""@);
    if c > 0 {
        assert(all[f + 1 + k] == list[f]);
        assert(!text::occurs(list[f], markers::MARKER_PREFIX@));
    } else {
        assert(all[e] =~= (indent + "# "@) + (markers::MARKER_PREFIX@ + (" end section \""@ + name
            + "\""@)));
        lemma_marker_line(indent + "# "@, " end section \""@ + name + "\""@);
    }
}

// ---------------------------------------------------------------------------
// Files
// ---------------------------------------------------------------------------

proof fn lemma_record_file_stays(marker: Seq<char>, span: SpanModel, scan: ScanModel)
    requires
        scan.markers.file is Some,
    ensures
        markers::record_spec(marker, span, scan) matches Ok(next) ==> next.markers.file is Some,
{
}

/// A file marker once found stays found
proof fn lemma_scan_file_stays(list: Seq<Seq<char>>, total: nat, i: int, scan: ScanModel)
    requires
        0 <= i <= list.len(),
        scan.markers.file is Some,
    ensures
        markers::scan_spec(list, total, i, scan).markers.file is Some,
    decreases list.len() - i,
{
    if i < list.len() {
        match text::split_once_spec(list[i], markers::MARKER_PREFIX@) {
            None => {
                lemma_scan_file_stays(list, total, i + 1, scan);
            },
            Some((_, after)) => {
                markers::lemma_continuation_count(list, i + 1);
                let (marker, last) = markers::body_spec(list, i, after);
                let span = markers::span_spec(list, total, i, last);
                lemma_record_file_stays(marker, span, scan);
                lemma_scan_file_stays(
                    list,
                    total,
                    last + 1,
                    after_marker(list, total, i, after, scan),
                );
            },
        }
    }
}

/// The same lines further down hold the same continuations
proof fn lemma_shifted_count(first: Seq<Seq<char>>, second: Seq<Seq<char>>, i: int, d: int)
    requires
        0 <= i <= first.len(),
        0 <= d,
        i + d <= second.len(),
        first.skip(i) == second.skip(i + d),
    ensures
        markers::continuation_count(first, i) == markers::continuation_count(second, i + d),
    decreases first.len() - i,
{
    assert(first.skip(i).len() == first.len() - i);
    assert(second.skip(i + d).len() == second.len() - (i + d));
    if i < first.len() {
        assert(first[i] == first.skip(i)[0]);
        assert(second[i + d] == second.skip(i + d)[0]);
        assert(first.skip(i + 1) =~= first.skip(i).skip(1));
        assert(second.skip(i + d + 1) =~= second.skip(i + d).skip(1));
        lemma_shifted_count(first, second, i + 1, d);
        assert(markers::continues(first, i) == markers::continues(second, i + d));
    }
}

proof fn lemma_shifted_body(
    first: Seq<Seq<char>>,
    second: Seq<Seq<char>>,
    i: int,
    d: int,
    after: Seq<char>,
)
    requires
        0 <= i < first.len(),
        0 <= d,
        i + d < second.len(),
        first.skip(i) == second.skip(i + d),
    ensures
        ({
            let (marker, last) = markers::body_spec(first, i, after);
            &&& markers::body_spec(second, i + d, after) == (marker, last + d)
            &&& i <= last < first.len()
        }),
{
    assert(first.skip(i + 1) =~= first.skip(i).skip(1));
    assert(second.skip(i + d + 1) =~= second.skip(i + d).skip(1));
    lemma_shifted_count(first, second, i + 1, d);
    markers::lemma_continuation_count(first, i + 1);
    let count = markers::continuation_count(first, i + 1);
    assert(markers::continuation_texts(first, i + 1, count) =~= markers::continuation_texts(
        second,
        i + d + 1,
        count,
    )) by {
        assert forall|m: int| 0 <= m < count implies first[i + 1 + m] == #[trigger] second[i + d + 1
            + m] by {
            assert(first[i + 1 + m] == first.skip(i)[1 + m]);
            assert(second[i + d + 1 + m] == second.skip(i + d)[1 + m]);
        }
    }
}

/// A marker that is no file marker keeps the one found before it
proof fn lemma_record_keeps_file(
    marker: Seq<char>,
    first_span: SpanModel,
    first: ScanModel,
    second_span: SpanModel,
    second: ScanModel,
)
    requires
        markers::record_spec(marker, first_span, first) is Ok ==> markers::file_options_spec(
            marker,
        ) is None,
    ensures
        markers::record_spec(marker, second_span, second) matches Ok(next) ==> next.markers.file
            == second.markers.file,
{
}

/// A file marker found last comes after those found before it
proof fn lemma_scan_file_line(
    list: Seq<Seq<char>>,
    total: nat,
    i: int,
    scan: ScanModel,
    least: nat,
)
    requires
        0 <= i <= list.len(),
        least <= i + 1,
        scan.markers.file matches Some(header) && header.first_line >= least,
    ensures
        markers::scan_spec(list, total, i, scan).markers.file matches Some(header)
            && header.first_line >= least,
    decreases list.len() - i,
{
    if i < list.len() {
        match text::split_once_spec(list[i], markers::MARKER_PREFIX@) {
            None => {
                lemma_scan_file_line(list, total, i + 1, scan, least);
            },
            Some((_, after)) => {
                markers::lemma_continuation_count(list, i + 1);
                let (marker, last) = markers::body_spec(list, i, after);
                lemma_scan_file_line(
                    list,
                    total,
                    last + 1,
                    after_marker(list, total, i, after, scan),
                    least,
                );
            },
        }
    }
}

/// Lines without a file marker keep the one found before them
#[verifier::rlimit(40)]
pub proof fn lemma_scan_keeps_file(
    first: Seq<Seq<char>>,
    first_total: nat,
    first_scan: ScanModel,
    second: Seq<Seq<char>>,
    second_total: nat,
    second_scan: ScanModel,
    i: int,
    d: int,
)
    requires
        0 <= i <= first.len(),
        0 <= d,
        i + d <= second.len(),
        first.skip(i) == second.skip(i + d),
        first_scan.markers.file matches Some(header) ==> header.first_line <= i,
        markers::scan_spec(first, first_total, i, first_scan).markers.file
            == first_scan.markers.file,
    ensures
        markers::scan_spec(second, second_total, i + d, second_scan).markers.file
            == second_scan.markers.file,
    decreases first.len() - i,
{
    assert(first.skip(i).len() == first.len() - i);
    assert(second.skip(i + d).len() == second.len() - (i + d));
    if i < first.len() {
        assert(first[i] == first.skip(i)[0]);
        assert(second[i + d] == second.skip(i + d)[0]);
        match text::split_once_spec(first[i], markers::MARKER_PREFIX@) {
            None => {
                assert(first.skip(i + 1) =~= first.skip(i).skip(1));
                assert(second.skip(i + d + 1) =~= second.skip(i + d).skip(1));
                lemma_scan_keeps_file(
                    first,
                    first_total,
                    first_scan,
                    second,
                    second_total,
                    second_scan,
                    i + 1,
                    d,
                );
            },
            Some((_, after)) => {
                lemma_shifted_body(first, second, i, d, after);
                let (marker, last) = markers::body_spec(first, i, after);
                let first_next = after_marker(first, first_total, i, after, first_scan);
                let second_next = after_marker(second, second_total, i + d, after, second_scan);
                let first_span = markers::span_spec(first, first_total, i, last);
                let second_span = markers::span_spec(second, second_total, i + d, last + d);
                if markers::record_spec(marker, first_span, first_scan) is Ok
                    && markers::file_options_spec(marker) is Some {
                    lemma_scan_file_line(
                        first,
                        first_total,
                        last + 1,
                        first_next,
                        (i + 1) as nat,
                    );
                }
                assert(first_next.markers.file == first_scan.markers.file);
                lemma_record_keeps_file(
                    marker,
                    first_span,
                    first_scan,
                    second_span,
                    second_scan,
                );
                assert(second_next.markers.file == second_scan.markers.file);
                assert(first.skip(last + 1) =~= first.skip(i).skip(last + 1 - i));
                assert(second.skip(last + d + 1) =~= second.skip(i + d).skip(last + 1 - i));
                lemma_scan_keeps_file(
                    first,
                    first_total,
                    first_next,
                    second,
                    second_total,
                    second_next,
                    last + 1,
                    d,
                );
            },
        }
    }
}

/// The lines of a text with a file marker after the first `f`
pub open spec fn lines_with_file_marker(
    list: Seq<Seq<char>>,
    f: int,
    added: Seq<OptionModel>,
) -> Seq<Seq<char>> {
    list.take(f) + seq!["# "@ + markers::file_marker_text()] + edits::option_lines(""@, added)
        + list.skip(f)
}

/// Continuation lines are option lines, each with its line end
pub proof fn lemma_continuations(indent: Seq<char>, added: Seq<OptionModel>)
    ensures
        apply::continuation_lines_spec(indent, added) == (if added.len() == 0 {
            Seq::<char>::empty()
        } else {
            lines::join(edits::option_lines(indent, added), seq!['\n']).push('\n')
        }),
    decreases added.len(),
{
    reveal_strlit("\n");
    if added.len() > 0 {
        let head = added.drop_last();
        lemma_continuations(indent, head);
        let all = edits::option_lines(indent, added);
        assert(all.drop_last() =~= edits::option_lines(indent, head));
        let last = apply::continuation_line(indent, added.last());
        assert(all.last() == last);
        assert(apply::continuation_lines_spec(indent, added) =~= lines::join(
            all,
            seq!['\n'],
        ).push('\n'));
    }
}

/// How many lines a file marker goes after: a shebang line, or none
pub open spec fn lines_before_marker(s: Seq<char>) -> int {
    if "#!"@.is_prefix_of(s) {
        1
    } else {
        0
    }
}

/// Whether a shebang line, if there is one, has a line end
spec fn shebang_ends(s: Seq<char>) -> bool {
    "#!"@.is_prefix_of(s) ==> s.contains('\n')
}

proof fn lemma_marker_place(s: Seq<char>)
    requires
        shebang_ends(s),
    ensures
        ({
            let list = lines::split(s, '\n');
            let f = lines_before_marker(s);
            &&& 0 <= f < list.len()
            &&& 0 <= edits::marker_place(s) <= s.len()
            &&& s.take(edits::marker_place(s)) == marker_laws::head(list, f)
            &&& s.skip(edits::marker_place(s)) == lines::join(list.skip(f), seq!['\n'])
        }),
{
    reveal_strlit("\n");
    let list = lines::split(s, '\n');
    lines::lemma_split(s, '\n');
    lines::lemma_join_split(s, '\n');
    if "#!"@.is_prefix_of(s) {
        text::lemma_find(s, "\n"@);
        let at = choose|k: int| 0 <= k < s.len() && s[k] == '\n';
        assert(s.subrange(at, at + 1) =~= "\n"@);
        assert(text::occurs_at(s, "\n"@, at));
        let i = text::find_spec(s, "\n"@)->0;
        assert(s.subrange(i, i + 1)[0] == '\n');
        assert forall|j: int| 0 <= j < i implies s.take(i)[j] != '\n' by {
            if s[j] == '\n' {
                assert(s.subrange(j, j + 1) =~= "\n"@);
                assert(text::occurs_at(s, "\n"@, j));
            }
        }
        lines::lemma_split_first(s, '\n', i);
        lines::lemma_split(s.skip(i + 1), '\n');
        lines::lemma_join_split(s.skip(i + 1), '\n');
        assert(list.skip(1) =~= lines::split(s.skip(i + 1), '\n'));
        assert(list.take(1) =~= seq![s.take(i)]);
        assert(s.take(i + 1) =~= s.take(i).push('\n'));
    } else {
        assert(list.skip(0) =~= list);
        assert(s.skip(0) =~= s);
        assert(s.take(0) =~= Seq::empty());
    }
}

/// A text with a file marker is its lines with the marker's between them
proof fn lemma_marked_file_lines(s: Seq<char>, added: Seq<OptionModel>)
    requires
        shebang_ends(s),
        fit_lines(added),
    ensures
        lines::split(edits::mark_file_spec(s, added), '\n') == lines_with_file_marker(
            lines::split(s, '\n'),
            lines_before_marker(s),
            added,
        ),
{
    let list = lines::split(s, '\n');
    let f = lines_before_marker(s);
    let sep = seq!['\n'];
    let line = "# "@ + markers::file_marker_text();
    let option_lines = edits::option_lines(""@, added);
    let all = lines_with_file_marker(list, f, added);
    let rest = lines::join(list.skip(f), sep);
    lemma_marker_place(s);
    lines::lemma_split(s, '\n');
    reveal_strlit("\n");
    reveal_strlit("");
    reveal_strlit("# ");
    reveal_strlit("@docs-as-code:");
    reveal_strlit(" file");
    assert("\n"@ =~= sep);
    lemma_continuations(""@, added);
    // No line holds a line feed
    assert(!line.contains('\n'));
    assert(!""@.contains('\n'));
    assert forall|i: int| 0 <= i < all.len() implies !(#[trigger] all[i]).contains('\n') by {
        if i < f {
            assert(all[i] == list[i]);
        } else if i == f {
            assert(all[i] == line);
        } else if i < f + 1 + added.len() {
            assert(all[i] == option_lines[i - f - 1]);
            assert(fits_a_line(added[i - f - 1]));
            lemma_option_line_fits(""@, added[i - f - 1]);
        } else {
            assert(all[i] == list[i - 1 - added.len()]);
        }
    }
    // The lines joined are the text
    let tail = seq![line] + option_lines + list.skip(f);
    let marker = seq![line] + option_lines;
    assert(tail =~= marker + list.skip(f));
    lines::lemma_join_concat(marker, list.skip(f), sep);
    if added.len() > 0 {
        lines::lemma_join_concat(seq![line], option_lines, sep);
        assert(lines::join(marker, sep).push('\n') =~= edits::file_marker_lines(added));
    } else {
        assert(marker =~= seq![line]);
        assert(lines::join(marker, sep).push('\n') =~= edits::file_marker_lines(added));
    }
    assert(lines::join(tail, sep) =~= edits::file_marker_lines(added) + rest);
    let head = marker_laws::head(list, f);
    assert(all =~= list.take(f) + tail);
    if f > 0 {
        lines::lemma_join_concat(list.take(f), tail, sep);
        assert(lines::join(all, sep) =~= head + (edits::file_marker_lines(added) + rest));
    } else {
        assert(all =~= tail);
        assert(head =~= Seq::empty());
    }
    assert(lines::join(all, sep) =~= edits::mark_file_spec(s, added));
    lines::lemma_split_join(all, '\n');
}

/// Lines that hold nothing like a marker add nothing
proof fn lemma_scan_to_skips(
    list: Seq<Seq<char>>,
    total: nat,
    i: int,
    stop: int,
    scan: ScanModel,
)
    requires
        0 <= i <= stop <= list.len(),
        forall|k: int|
            i <= k < stop ==> !text::occurs(#[trigger] list[k], markers::MARKER_PREFIX@),
    ensures
        scan_to(list, total, i, stop, scan) == scan,
    decreases stop - i,
{
    if i < stop {
        text::lemma_find(list[i], markers::MARKER_PREFIX@);
        assert(!text::occurs(list[i], markers::MARKER_PREFIX@));
        if let Some(k) = text::find_spec(list[i], markers::MARKER_PREFIX@) {
            assert(text::occurs_at(list[i], markers::MARKER_PREFIX@, k));
        }
        lemma_scan_to_skips(list, total, i + 1, stop, scan);
    }
}

/// What a file marker written into `s` reads back as, with the text around it
pub open spec fn reads_back_whole(s: Seq<char>, added: Seq<OptionModel>) -> bool {
    let marked = edits::mark_file_spec(s, added);
    let found = markers::markers_spec(marked);
    &&& found.file matches Some(header) && header.options == added && (repo::marked_file_spec(
        marked,
        header,
    ) matches Ok(raw) && raw.raw == repo::whole_lines(s)) && bytes::before_byte(
        marked,
        header.marker_from as int,
    ) + bytes::from_byte(marked, header.marker_to as int) == edits::shebang_ended(s)
    &&& "#!"@.is_prefix_of(s) ==> lines::split(marked, '\n')[0] == lines::split(s, '\n')[0]
    &&& !text::occurs(s, markers::MARKER_PREFIX@) ==> found.sections.len() == 0
        && found.problems.len() == 0
}

/// A file marker's text with options
proof fn lemma_file_marker_text(added: Seq<OptionModel>)
    requires
        fit_lines(added),
    ensures
        ({
            let whole = "file"@ + option_laws::written(added);
            &&& markers::file_options_spec(whole) == Some(option_laws::written(added))
            &&& options::options_spec(option_laws::written(added)) == Ok::<_, Seq<char>>(added)
        }),
{
    let whole = "file"@ + option_laws::written(added);
    let options_text = option_laws::written(added);
    reveal_strlit("file");
    lemma_written_fits(added);
    lemma_valid(added);
    option_laws::law_options_read_back(added);
    assert(whole.skip(4) =~= options_text);
    assert("file"@.is_prefix_of(whole)) by {
        assert(whole.take(4) =~= "file"@);
    }
    if added.len() > 0 {
        reveal_strlit(" | ");
        assert(options_text[0] == ' ');
        assert forall|j: int| 0 <= j < options_text.skip(1).len() implies options_text.skip(1)[j]
            != '\n' by {
            assert(options_text.contains(options_text[j + 1]));
        }
    }
}

/// The lines of a file marker among those of a text
proof fn lemma_file_marker_lines(list: Seq<Seq<char>>, f: int, added: Seq<OptionModel>)
    requires
        0 <= f < list.len(),
        fit_lines(added),
        !markers::continues(list, f),
    ensures
        ({
            let all = lines_with_file_marker(list, f, added);
            let k = added.len() as int;
            &&& all.len() == list.len() + 1 + k
            &&& !markers::continues(all, f)
            &&& text::split_once_spec(all[f], markers::MARKER_PREFIX@) matches Some((_, after))
                && markers::body_spec(all, f, after) == (
                "file"@ + option_laws::written(added),
                f + k,
            )
        }),
{
    let k = added.len() as int;
    let all = lines_with_file_marker(list, f, added);
    reveal_strlit("");
    reveal_strlit(" file");
    reveal_strlit("file");
    let indent = ""@;
    let marker = "file"@;
    assert(all_white(indent));
    lemma_white_has_no_at(indent);
    assert(" file"@ =~= seq![' '] + marker);
    assert(all[f] == "# "@ + markers::file_marker_text());
    assert(all[f] =~= (indent + "# "@) + (markers::MARKER_PREFIX@ + (seq![' '] + marker)));
    lemma_marker_line(indent + "# "@, seq![' '] + marker);
    assert(!markers::continues(all, f));
    assert(all.subrange(f + 1, f + 1 + k) =~= edits::option_lines(indent, added));
    assert(all[f + 1 + k] == list[f]);
    assert(!markers::continues(all, f + 1 + k));
    assert("file"@.is_prefix_of(marker)) by {
        assert(marker.take(4) =~= "file"@);
    }
    lemma_marker_body(all, f, marker, indent, added);
}

/// What a scan of a text finds with a file marker among its lines
#[verifier::spinoff_prover]
#[verifier::rlimit(40)]
proof fn lemma_file_marker_found(s: Seq<char>, added: Seq<OptionModel>)
    requires
        fit_lines(added),
        shebang_ends(s),
        markers::markers_spec(s).file is None,
        !markers::continues(lines::split(s, '\n'), lines_before_marker(s)),
    ensures
        ({
            let f = lines_before_marker(s);
            let marked = edits::mark_file_spec(s, added);
            let all = lines_with_file_marker(lines::split(s, '\n'), f, added);
            let found = markers::markers_spec(marked);
            &&& found.file == Some(
                markers::header_spec(
                    markers::span_spec(all, bytes::byte_len(marked), f, f + added.len()),
                    added,
                ),
            )
            &&& !text::occurs(s, markers::MARKER_PREFIX@) ==> found.sections.len() == 0
                && found.problems.len() == 0
        }),
{
    let list = lines::split(s, '\n');
    let f = lines_before_marker(s);
    let k = added.len() as int;
    let marked = edits::mark_file_spec(s, added);
    let all = lines_with_file_marker(list, f, added);
    let total = bytes::byte_len(marked);
    let old_total = bytes::byte_len(s);
    lines::lemma_split(s, '\n');
    lemma_marker_place(s);
    lemma_marked_file_lines(s, added);
    lemma_file_marker_lines(list, f, added);
    lemma_file_marker_text(added);
    // The lines before it
    let before_old = scan_to(list, old_total, 0, f, empty_scan());
    let before_new = scan_to(all, total, 0, f, empty_scan());
    lemma_scan_split(list, old_total, 0, f, empty_scan());
    lemma_scan_split(all, total, 0, f, empty_scan());
    // The marker
    let (_, after) = text::split_once_spec(all[f], markers::MARKER_PREFIX@)->0;
    let span = markers::span_spec(all, total, f, f + k);
    let found = after_marker(all, total, f, after, before_new);
    let header = markers::header_spec(span, added);
    assert(found.markers.file == Some(header));
    // The lines after it
    assert(all.skip(f + 1 + k) =~= list.skip(f));
    if before_old.markers.file is Some {
        lemma_scan_file_stays(list, old_total, f, before_old);
    }
    lemma_scan_keeps_file(
        list,
        old_total,
        before_old,
        all,
        total,
        found,
        f,
        1 + k,
    );
    assert(markers::markers_spec(marked).file == Some(header));
    // A text without markers
    if !text::occurs(s, markers::MARKER_PREFIX@) {
        rewrite_laws::lemma_split_has_no_markers(s);
        assert forall|i: int| 0 <= i < f || f + 1 + k <= i < all.len() implies !text::occurs(
            #[trigger] all[i],
            markers::MARKER_PREFIX@,
        ) by {
            if i < f {
                assert(all[i] == list[i]);
            } else {
                assert(all[i] == list[i - 1 - k]);
            }
        }
        lemma_scan_to_skips(all, total, 0, f, empty_scan());
        lemma_scan_skips(all, total, f + 1 + k, all.len() as int, found);
        assert(found.open =~= Seq::empty());
        assert(markers::markers_spec(marked).problems =~= Seq::empty());
    }
}

#[verifier::spinoff_prover]
#[verifier::rlimit(50)]
proof fn lemma_marked_file_reads_back(s: Seq<char>, added: Seq<OptionModel>)
    requires
        fit_lines(added),
        shebang_ends(s),
        markers::markers_spec(s).file is None,
        !markers::continues(lines::split(s, '\n'), lines_before_marker(s)),
    ensures
        reads_back_whole(s, added),
{
    let list = lines::split(s, '\n');
    let f = lines_before_marker(s);
    let k = added.len() as int;
    let marked = edits::mark_file_spec(s, added);
    let all = lines_with_file_marker(list, f, added);
    lines::lemma_split(s, '\n');
    lemma_marker_place(s);
    lemma_marked_file_lines(s, added);
    lemma_file_marker_found(s, added);
    let header = markers::markers_spec(marked).file->0;
    marker_laws::law_markers_are_whole_lines(marked);
    marker_laws::law_header_in_text(marked, header);
    assert(all.take(f) =~= list.take(f));
    assert(all.skip(f + 1 + k) =~= list.skip(f));
    assert(marker_laws::head(all, f) =~= marker_laws::head(list, f));
    assert(s =~= s.take(edits::marker_place(s)) + s.skip(edits::marker_place(s)));
}

/// A line end after a shebang line adds no line that goes on with a marker
pub proof fn lemma_bare_shebang(s: Seq<char>)
    requires
        edits::is_bare_shebang(s),
        markers::markers_spec(s).file is None,
    ensures
        ({
            let whole = edits::shebang_ended(s);
            &&& "#!"@.is_prefix_of(whole)
            &&& whole.contains('\n')
            &&& lines::split(s, '\n') == seq![s]
            &&& lines::split(whole, '\n') == seq![s, ""@]
            &&& !markers::continues(lines::split(whole, '\n'), 1)
            &&& markers::markers_spec(whole).file is None
            &&& repo::whole_lines(whole) == repo::whole_lines(s)
            &&& edits::shebang_ended(whole) == whole
        }),
{
    let whole = edits::shebang_ended(s);
    let first = seq![s];
    let second = seq![s, ""@];
    reveal_strlit("#!");
    reveal_strlit("\n");
    reveal_strlit("");
    assert(whole.take(2) =~= s.take(2));
    assert(whole[s.len() as int] == '\n');
    assert(whole =~= s.push('\n'));
    assert(s.last() == s[s.len() - 1]);
    lines::lemma_split_join(first, '\n');
    assert(lines::join(first, seq!['\n']) =~= s);
    assert forall|i: int| 0 <= i < second.len() implies !(#[trigger] second[i]).contains('\n') by {
        if i == 1 {
            assert(second[i] == ""@);
        }
    }
    assert(second.drop_last() =~= first);
    assert(lines::join(second, seq!['\n']) =~= whole);
    lines::lemma_split_join(second, '\n');
    assert(text::after_run(""@, CharClass::White).len() == 0);
    assert(!markers::continues(second, 1));
    assert(!markers::continues(first, 1));
    let total = bytes::byte_len(s);
    let whole_total = bytes::byte_len(whole);
    let split = text::split_once_spec(s, markers::MARKER_PREFIX@);
    assert(!text::occurs(""@, markers::MARKER_PREFIX@)) by {
        reveal_strlit("@docs-as-code:");
    }
    lemma_scan_skips(second, whole_total, 1, 2, empty_scan());
    if let Some((_, after)) = split {
        let (marker, last) = markers::body_spec(first, 0, after);
        assert(markers::continuation_count(first, 1) == 0);
        assert(markers::continuation_count(second, 1) == 0);
        assert(markers::continuation_texts(first, 1, 0) =~= markers::continuation_texts(
            second,
            1,
            0,
        ));
        assert(markers::body_spec(second, 0, after) == (marker, last));
        assert(last == 0);
        let next = after_marker(second, whole_total, 0, after, empty_scan());
        lemma_record_keeps_file(
            marker,
            markers::span_spec(first, total, 0, 0),
            empty_scan(),
            markers::span_spec(second, whole_total, 0, 0),
            empty_scan(),
        );
        lemma_scan_skips(second, whole_total, 1, 2, next);
        assert(markers::scan_spec(first, total, 1, after_marker(first, total, 0, after, empty_scan()))
            == after_marker(first, total, 0, after, empty_scan()));
    }
}

/// A line end after a shebang line makes nothing a marker
pub proof fn lemma_shebang_has_no_marker(s: Seq<char>)
    requires
        !text::occurs(s, markers::MARKER_PREFIX@),
    ensures
        !text::occurs(edits::shebang_ended(s), markers::MARKER_PREFIX@),
{
    let whole = edits::shebang_ended(s);
    let n = markers::MARKER_PREFIX@.len() as int;
    reveal_strlit("\n");
    reveal_strlit("@docs-as-code:");
    assert forall|k: int| !#[trigger] text::occurs_at(whole, markers::MARKER_PREFIX@, k) by {
        if text::occurs_at(whole, markers::MARKER_PREFIX@, k) {
            assert(whole.subrange(k, k + n)[n - 1] == ':');
            assert(s.subrange(k, k + n) =~= whole.subrange(k, k + n));
            assert(text::occurs_at(s, markers::MARKER_PREFIX@, k));
        }
    }
}

/// A file marked whole reads back as marked with the options written and all of its own
/// lines, around the lines of the marker, as long as it isn't marked whole already and the
/// line after the marker doesn't start like options. A shebang line stays first, and a
/// file that held nothing like a marker has no sections and no problems
pub proof fn law_marked_file_reads_back(s: Seq<char>, added: Seq<OptionModel>)
    requires
        fit_lines(added),
        markers::markers_spec(s).file is None,
        !markers::continues(lines::split(s, '\n'), lines_before_marker(s)),
    ensures
        reads_back_whole(s, added),
{
    if edits::is_bare_shebang(s) {
        let whole = edits::shebang_ended(s);
        lemma_bare_shebang(s);
        lemma_marked_file_reads_back(whole, added);
        if !text::occurs(s, markers::MARKER_PREFIX@) {
            lemma_shebang_has_no_marker(s);
        }
    } else {
        lemma_marked_file_reads_back(s, added);
    }
}

} // verus!
