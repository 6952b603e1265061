//! What holds of the markers of every text: where they are, and what they mark.

use crate::bytes;
use crate::lines;
use crate::markers;
use crate::markers::HeaderModel;
use crate::markers::MarkersModel;
use crate::markers::OpenModel;
use crate::markers::ScanModel;
use crate::markers::SectionModel;
use crate::text;
use vstd::prelude::*;

verus! {

/// The text of `text_lines` before line `k`
pub open spec fn head(text_lines: Seq<Seq<char>>, k: int) -> Seq<char> {
    if k <= 0 {
        Seq::empty()
    } else if k >= text_lines.len() {
        lines::join(text_lines, seq!['\n'])
    } else {
        lines::join(text_lines.take(k), seq!['\n']).push('\n')
    }
}

/// Whole lines: those from line `from` up to line `to`, each with its line end
pub open spec fn body(text_lines: Seq<Seq<char>>, from: int, to: int) -> Seq<char> {
    if from >= to {
        Seq::empty()
    } else {
        lines::join(text_lines.subrange(from, to), seq!['\n']).push('\n')
    }
}

/// The byte offset that line `k` starts at, or where the text of `total` bytes ends
pub open spec fn offset(text_lines: Seq<Seq<char>>, total: nat, k: int) -> nat {
    if k < text_lines.len() {
        markers::line_start(text_lines, k)
    } else {
        total
    }
}

/// A line starts after the text of the lines before it
pub proof fn lemma_head(text_lines: Seq<Seq<char>>, k: int)
    requires
        text_lines.len() > 0,
        0 <= k <= text_lines.len(),
    ensures
        ({
            let all = lines::join(text_lines, seq!['\n']);
            let at = offset(text_lines, bytes::byte_len(all), k) as int;
            &&& bytes::is_boundary(all, at)
            &&& bytes::before_byte(all, at) == head(text_lines, k)
            &&& bytes::char_index(all, at) == head(text_lines, k).len()
            &&& k < text_lines.len() ==> bytes::from_byte(all, at) == lines::join(
                text_lines.skip(k),
                seq!['\n'],
            )
            &&& k == text_lines.len() ==> bytes::from_byte(all, at) == Seq::<char>::empty()
        }),
{
    let sep = seq!['\n'];
    let all = lines::join(text_lines, sep);
    if k == 0 {
        assert(text_lines.skip(0) =~= text_lines);
        bytes::lemma_boundary_concat(Seq::empty(), all);
        assert(Seq::<char>::empty() + all =~= all);
        assert(bytes::byte_len(Seq::<char>::empty()) == 0);
    } else if k == text_lines.len() {
        bytes::lemma_boundary_concat(all, Seq::empty());
        assert(all + Seq::<char>::empty() =~= all);
    } else {
        let before = lines::join(text_lines.take(k), sep);
        let after = lines::join(text_lines.skip(k), sep);
        assert(text_lines =~= text_lines.take(k) + text_lines.skip(k));
        lines::lemma_join_concat(text_lines.take(k), text_lines.skip(k), sep);
        assert(before + sep + after =~= before.push('\n') + after);
        bytes::lemma_boundary_concat(before.push('\n'), after);
        markers::lemma_line_start(text_lines, k - 1);
        bytes::lemma_byte_len_push(before, '\n');
    }
    let at = offset(text_lines, bytes::byte_len(all), k) as int;
    bytes::lemma_boundary(all, at);
}

/// What stands between two lines is whole lines
pub proof fn lemma_body(text_lines: Seq<Seq<char>>, from: int, to: int)
    requires
        0 <= from <= to < text_lines.len(),
    ensures
        head(text_lines, to) == head(text_lines, from) + body(text_lines, from, to),
{
    let sep = seq!['\n'];
    if from == to {
        assert(head(text_lines, from) + body(text_lines, from, to) =~= head(text_lines, to));
    } else if from == 0 {
        assert(text_lines.subrange(0, to) =~= text_lines.take(to));
        assert(head(text_lines, from) + body(text_lines, from, to) =~= head(text_lines, to));
    } else {
        let first = text_lines.take(from);
        let second = text_lines.subrange(from, to);
        assert(text_lines.take(to) =~= first + second);
        lines::lemma_join_concat(first, second, sep);
        assert(head(text_lines, from) + body(text_lines, from, to) =~= head(text_lines, to));
    }
}

/// The text between the starts of two lines is the whole lines between them
pub proof fn lemma_byte_range(text_lines: Seq<Seq<char>>, from: int, to: int)
    requires
        0 <= from <= to < text_lines.len(),
    ensures
        ({
            let all = lines::join(text_lines, seq!['\n']);
            let start = markers::line_start(text_lines, from) as int;
            let end = markers::line_start(text_lines, to) as int;
            &&& start <= end
            &&& bytes::is_boundary(all, start)
            &&& bytes::is_boundary(all, end)
            &&& bytes::byte_range(all, start, end) == body(text_lines, from, to)
        }),
{
    let all = lines::join(text_lines, seq!['\n']);
    let start = markers::line_start(text_lines, from) as int;
    let end = markers::line_start(text_lines, to) as int;
    lemma_head(text_lines, from);
    lemma_head(text_lines, to);
    lemma_body(text_lines, from, to);
    bytes::lemma_boundary(all, start);
    bytes::lemma_boundary(all, end);
    let first = head(text_lines, from);
    bytes::lemma_byte_len_concat(first, body(text_lines, from, to));
    assert(all.subrange(first.len() as int, head(text_lines, to).len() as int) =~= body(
        text_lines,
        from,
        to,
    )) by {
        assert(all.take(head(text_lines, to).len() as int) =~= first + body(
            text_lines,
            from,
            to,
        ));
        assert(all.subrange(first.len() as int, head(text_lines, to).len() as int) =~= all.take(
            head(text_lines, to).len() as int,
        ).skip(first.len() as int));
    }
}

// ---------------------------------------------------------------------------
// Where markers are
// ---------------------------------------------------------------------------

/// Whether a marker is on whole lines of the text
pub open spec fn header_in(text_lines: Seq<Seq<char>>, total: nat, header: HeaderModel) -> bool {
    &&& 1 <= header.first_line <= header.last_line <= text_lines.len()
    &&& header.marker_from == offset(text_lines, total, header.first_line - 1)
    &&& header.marker_to == offset(text_lines, total, header.last_line as int)
}

/// Whether a section is the whole lines between two markers
pub open spec fn section_in(text_lines: Seq<Seq<char>>, total: nat, section: SectionModel) -> bool {
    &&& header_in(text_lines, total, section.header)
    &&& section.header.last_line < section.end_line <= text_lines.len()
    &&& section.content_from == section.header.marker_to
    &&& section.content_to == offset(text_lines, total, section.end_line - 1)
}

/// Whether all markers are on whole lines of the text
pub open spec fn markers_in(text_lines: Seq<Seq<char>>, total: nat, found: MarkersModel) -> bool {
    &&& found.file matches Some(header) ==> header_in(text_lines, total, header)
    &&& forall|k: int|
        0 <= k < found.sections.len() ==> section_in(
            text_lines,
            total,
            #[trigger] found.sections[k],
        )
    &&& markers::in_order(markers::section_names(found.sections))
}

/// Whether what was found in the lines before line `i` is on whole lines of the text
pub open spec fn scan_in(text_lines: Seq<Seq<char>>, total: nat, i: int, scan: ScanModel) -> bool {
    &&& markers_in(text_lines, total, scan.markers)
    &&& forall|k: int|
        0 <= k < scan.open.len() ==> header_in(
            text_lines,
            total,
            (#[trigger] scan.open[k]).header,
        ) && scan.open[k].header.last_line <= i
    &&& markers::in_order(markers::open_names(scan.open))
    &&& forall|k: int|
        0 <= k < scan.open.len() ==> !markers::section_names(scan.markers.sections).contains(
            (#[trigger] scan.open[k]).name,
        )
}

proof fn lemma_names_insert(sections: Seq<SectionModel>, p: int, section: SectionModel)
    requires
        0 <= p <= sections.len(),
    ensures
        markers::section_names(sections.insert(p, section)) == markers::section_names(
            sections,
        ).insert(p, section.name),
{
    assert(markers::section_names(sections.insert(p, section)) =~= markers::section_names(
        sections,
    ).insert(p, section.name));
}

proof fn lemma_record_start(
    text_lines: Seq<Seq<char>>,
    total: nat,
    i: int,
    last: int,
    name: Seq<char>,
    options_text: Seq<char>,
    scan: ScanModel,
)
    requires
        0 <= i <= last < text_lines.len(),
        total == bytes::byte_len(lines::join(text_lines, seq!['\n'])),
        scan_in(text_lines, total, i, scan),
    ensures
        markers::record_start(
            name,
            markers::span_spec(text_lines, total, i, last),
            options_text,
            scan,
        ) matches Ok(next) ==> scan_in(text_lines, total, last + 1, next),
{
    let span = markers::span_spec(text_lines, total, i, last);
    lemma_span(text_lines, total, i, last);
    if let Ok(next) = markers::record_start(name, span, options_text, scan) {
        let names = markers::open_names(scan.open);
        let p = markers::place(names, name);
        markers::lemma_place(names, name);
        markers::lemma_insert_in_order(names, name);
        assert(markers::open_names(next.open) =~= names.insert(p, name));
        assert forall|k: int| 0 <= k < next.open.len() implies header_in(
            text_lines,
            total,
            (#[trigger] next.open[k]).header,
        ) && next.open[k].header.last_line <= last + 1 && !markers::section_names(
            next.markers.sections,
        ).contains(next.open[k].name) by {
            if k < p {
                assert(next.open[k] == scan.open[k]);
            } else if k > p {
                assert(next.open[k] == scan.open[k - 1]);
            }
        }
    }
}

proof fn lemma_span(text_lines: Seq<Seq<char>>, total: nat, i: int, last: int)
    requires
        0 <= i <= last < text_lines.len(),
        total == bytes::byte_len(lines::join(text_lines, seq!['\n'])),
    ensures
        ({
            let span = markers::span_spec(text_lines, total, i, last);
            &&& span.marker_from == offset(text_lines, total, i)
            &&& span.marker_to == offset(text_lines, total, last + 1)
            &&& span.last_line_start == offset(text_lines, total, last)
            &&& span.first_line == i + 1
            &&& span.last_line == last + 1
        }),
{
    markers::lemma_line_start_bound(text_lines, last);
    if last + 1 < text_lines.len() {
        markers::lemma_line_start_bound(text_lines, last + 1);
        assert(markers::line_start(text_lines, last + 1) == markers::line_start(text_lines, last)
            + bytes::byte_len(text_lines[last]) + 1);
    }
}

proof fn lemma_record_end(
    text_lines: Seq<Seq<char>>,
    total: nat,
    i: int,
    last: int,
    name: Seq<char>,
    scan: ScanModel,
)
    requires
        0 <= i <= last < text_lines.len(),
        total == bytes::byte_len(lines::join(text_lines, seq!['\n'])),
        scan_in(text_lines, total, i, scan),
    ensures
        markers::record_end(
            name,
            markers::span_spec(text_lines, total, i, last),
            scan,
        ) matches Ok(next) ==> scan_in(text_lines, total, last + 1, next),
{
    let span = markers::span_spec(text_lines, total, i, last);
    lemma_span(text_lines, total, i, last);
    if let Ok(next) = markers::record_end(name, span, scan) {
        let names = markers::open_names(scan.open);
        markers::lemma_index_of(names, name);
        let at = markers::index_of(names, name)->0;
        let sections = scan.markers.sections;
        let known = markers::section_names(sections);
        assert(scan.open[at].name == name);
        markers::lemma_index_of(known, name);
        markers::lemma_place(known, name);
        let p = markers::place(known, name);
        markers::lemma_insert_in_order(known, name);
        let section = next.markers.sections[p];
        lemma_names_insert(
            sections,
            p,
            SectionModel {
                name,
                header: scan.open[at].header,
                content_from: scan.open[at].header.marker_to,
                content_to: span.last_line_start,
                end_line: span.last_line,
            },
        );
        assert forall|k: int| 0 <= k < next.markers.sections.len() implies section_in(
            text_lines,
            total,
            #[trigger] next.markers.sections[k],
        ) by {
            if k < p {
                assert(next.markers.sections[k] == sections[k]);
            } else if k > p {
                assert(next.markers.sections[k] == sections[k - 1]);
            }
        }
        assert(markers::open_names(next.open) =~= names.remove(at));
        assert forall|k: int| 0 <= k < next.open.len() implies header_in(
            text_lines,
            total,
            (#[trigger] next.open[k]).header,
        ) && next.open[k].header.last_line <= last + 1 && !markers::section_names(
            next.markers.sections,
        ).contains(next.open[k].name) by {
            let m = if k < at {
                k
            } else {
                k + 1
            };
            assert(next.open[k] == scan.open[m]);
            assert(names[m] == scan.open[m].name);
            assert(names[at] == name);
            text::lemma_before_total(names[m], names[at]);
            assert(scan.open[m].name != name);
            let after = known.insert(p, name);
            if after.contains(scan.open[m].name) {
                let j = choose|j: int| 0 <= j < after.len() && after[j] == scan.open[m].name;
                if j < p {
                    assert(known[j] == scan.open[m].name);
                } else if j > p {
                    assert(known[j - 1] == scan.open[m].name);
                }
                assert(known.contains(scan.open[m].name));
            }
        }
    }
}

proof fn lemma_record(
    text_lines: Seq<Seq<char>>,
    total: nat,
    i: int,
    last: int,
    marker: Seq<char>,
    scan: ScanModel,
)
    requires
        0 <= i <= last < text_lines.len(),
        total == bytes::byte_len(lines::join(text_lines, seq!['\n'])),
        scan_in(text_lines, total, i, scan),
    ensures
        markers::record_spec(
            marker,
            markers::span_spec(text_lines, total, i, last),
            scan,
        ) matches Ok(next) ==> scan_in(text_lines, total, last + 1, next),
{
    lemma_span(text_lines, total, i, last);
    if let Some((name, options_text)) = markers::start_spec(marker) {
        lemma_record_start(text_lines, total, i, last, name, options_text, scan);
    }
    if let Some(name) = markers::end_spec(marker) {
        lemma_record_end(text_lines, total, i, last, name, scan);
    }
}

pub proof fn lemma_scan(text_lines: Seq<Seq<char>>, total: nat, i: int, scan: ScanModel)
    requires
        0 <= i <= text_lines.len(),
        total == bytes::byte_len(lines::join(text_lines, seq!['\n'])),
        scan_in(text_lines, total, i, scan),
    ensures
        markers_in(
            text_lines,
            total,
            markers::scan_spec(text_lines, total, i, scan).markers,
        ),
    decreases text_lines.len() - i,
{
    if i < text_lines.len() {
        match text::split_once_spec(text_lines[i], markers::MARKER_PREFIX@) {
            None => {
                lemma_scan(text_lines, total, i + 1, scan);
            },
            Some((_, after)) => {
                let (marker, last) = markers::body_spec(text_lines, i, after);
                markers::lemma_continuation_count(text_lines, i + 1);
                let span = markers::span_spec(text_lines, total, i, last);
                lemma_record(text_lines, total, i, last, marker, scan);
                let next = match markers::record_spec(marker, span, scan) {
                    Ok(next) => next,
                    Err(error) => markers::with_problem(
                        scan,
                        markers::line_problem(span.first_line, error),
                    ),
                };
                assert(scan_in(text_lines, total, last + 1, next));
                lemma_scan(text_lines, total, last + 1, next);
            },
        }
    }
}

/// The markers of a text are on whole lines of it; its sections are in the order of
/// their names, with no name twice
pub proof fn law_markers_are_whole_lines(s: Seq<char>)
    ensures
        markers_in(lines::split(s, '\n'), bytes::byte_len(s), markers::markers_spec(s)),
{
    let text_lines = lines::split(s, '\n');
    lines::lemma_join_split(s, '\n');
    lines::lemma_split(s, '\n');
    let empty = ScanModel { markers: markers::no_markers(), open: Seq::<OpenModel>::empty() };
    assert(scan_in(text_lines, bytes::byte_len(s), 0, empty));
    lemma_scan(text_lines, bytes::byte_len(s), 0, empty);
}

/// A marker of a text starts and ends on character boundaries of it
pub proof fn law_header_in_text(s: Seq<char>, header: HeaderModel)
    requires
        header_in(lines::split(s, '\n'), bytes::byte_len(s), header),
    ensures
        header.marker_from <= header.marker_to <= bytes::byte_len(s),
        bytes::is_boundary(s, header.marker_from as int),
        bytes::is_boundary(s, header.marker_to as int),
        bytes::before_byte(s, header.marker_from as int) == head(
            lines::split(s, '\n'),
            header.first_line - 1,
        ),
        bytes::from_byte(s, header.marker_to as int) == (if header.last_line < lines::split(
            s,
            '\n',
        ).len() {
            lines::join(lines::split(s, '\n').skip(header.last_line as int), seq!['\n'])
        } else {
            Seq::empty()
        }),
{
    let text_lines = lines::split(s, '\n');
    lines::lemma_join_split(s, '\n');
    lines::lemma_split(s, '\n');
    lemma_head(text_lines, header.first_line - 1);
    lemma_head(text_lines, header.last_line as int);
    bytes::lemma_boundary(s, header.marker_from as int);
    bytes::lemma_boundary(s, header.marker_to as int);
    if header.last_line < text_lines.len() {
        lemma_byte_range(text_lines, header.first_line - 1, header.last_line as int);
    }
}

/// The marked content of a section is the whole lines between its markers
pub proof fn law_section_content(s: Seq<char>, section: SectionModel)
    requires
        section_in(lines::split(s, '\n'), bytes::byte_len(s), section),
    ensures
        section.content_from <= section.content_to,
        bytes::is_boundary(s, section.content_from as int),
        bytes::is_boundary(s, section.content_to as int),
        bytes::byte_range(s, section.content_from as int, section.content_to as int) == body(
            lines::split(s, '\n'),
            section.header.last_line as int,
            section.end_line - 1,
        ),
{
    lines::lemma_join_split(s, '\n');
    lemma_byte_range(
        lines::split(s, '\n'),
        section.header.last_line as int,
        section.end_line - 1,
    );
}

/// A file that is marked whole and has sections is reported as a problem
pub proof fn law_file_or_sections(s: Seq<char>)
    ensures
        markers::markers_spec(s).file is Some && markers::markers_spec(s).sections.len() > 0
            ==> markers::markers_spec(s).problems.len() > 0,
{
}

} // verus!
