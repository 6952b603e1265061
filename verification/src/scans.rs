//! Where what a scan for markers finds comes from, and scans of lines that moved.

use crate::bytes;
use crate::edit_laws;
use crate::lines;
use crate::markers;
use crate::markers::HeaderModel;
use crate::markers::OpenModel;
use crate::markers::ScanModel;
use crate::markers::SectionModel;
use crate::markers::SpanModel;
use crate::options;
use crate::text;
use vstd::prelude::*;

verus! {

// ---------------------------------------------------------------------------
// Arriving at a line
// ---------------------------------------------------------------------------

/// What is found in the lines before line `k`
pub open spec fn scan_before(list: Seq<Seq<char>>, total: nat, k: int) -> ScanModel {
    edit_laws::scan_to(list, total, 0, k, edit_laws::empty_scan())
}

/// Whether a scan of the lines comes to line `i`, with `scan` found by then
pub open spec fn arrives(list: Seq<Seq<char>>, total: nat, i: int, scan: ScanModel) -> bool {
    forall|stop: int|
        i <= stop ==> #[trigger] scan_before(list, total, stop) == edit_laws::scan_to(
            list,
            total,
            i,
            stop,
            scan,
        )
}

/// A section of a name that is open
pub open spec fn has_open(scan: ScanModel, open: OpenModel) -> bool {
    markers::index_of(markers::open_names(scan.open), open.name) matches Some(at) && scan.open[at]
        == open
}

/// Whether a marker is a section's start marker with that header
pub open spec fn is_start(
    list: Seq<Seq<char>>,
    total: nat,
    name: Seq<char>,
    header: HeaderModel,
) -> bool {
    let f = header.first_line - 1;
    &&& 0 <= f < header.last_line <= list.len()
    &&& text::split_once_spec(list[f], markers::MARKER_PREFIX@) matches Some((_, after))
    &&& {
        let (marker, last) = markers::body_spec(list, f, after);
        &&& last == header.last_line - 1
        &&& markers::takes_continuations(text::trimmed(after))
        &&& markers::file_options_spec(marker) is None
        &&& markers::start_spec(marker) matches Some((named, options_text)) && named == name
            && options::options_spec(options_text) == Ok::<_, Seq<char>>(header.options)
        &&& header == markers::header_spec(
            markers::span_spec(list, total, f, last),
            header.options,
        )
    }
}

/// Whether an open section was opened by its start marker
#[verifier::opaque]
pub open spec fn opened(list: Seq<Seq<char>>, total: nat, open: OpenModel) -> bool {
    let f = open.header.first_line - 1;
    let l = open.header.last_line as int;
    &&& is_start(list, total, open.name, open.header)
    &&& !markers::continues(list, l)
    &&& arrives(list, total, f, scan_before(list, total, f))
    &&& !edit_laws::knows(scan_before(list, total, f), open.name)
    &&& markers::open_names(scan_before(list, total, f).open).no_duplicates()
    &&& arrives(list, total, l, scan_before(list, total, l))
    &&& has_open(scan_before(list, total, l), open)
    &&& markers::open_names(scan_before(list, total, l).open).no_duplicates()
}

/// Whether a marker is a section's end marker
pub open spec fn is_end(list: Seq<Seq<char>>, name: Seq<char>, e: int) -> bool {
    &&& 0 <= e < list.len()
    &&& text::split_once_spec(list[e], markers::MARKER_PREFIX@) matches Some((_, after))
    &&& {
        let marker = text::trimmed(after);
        &&& !markers::takes_continuations(marker)
        &&& markers::file_options_spec(marker) is None
        &&& markers::start_spec(marker) is None
        &&& markers::end_spec(marker) == Some(name)
    }
}

/// The open section that an end marker closes
pub open spec fn open_part(section: SectionModel) -> OpenModel {
    OpenModel { name: section.name, header: section.header }
}

/// Whether a section was closed by its end marker
#[verifier::opaque]
pub open spec fn closed(list: Seq<Seq<char>>, total: nat, section: SectionModel) -> bool {
    let e = section.end_line - 1;
    &&& is_end(list, section.name, e)
    &&& opened(list, total, open_part(section))
    &&& section.header.last_line <= e
    &&& has_open(scan_before(list, total, e), open_part(section))
    &&& section.content_from == section.header.marker_to
    &&& section.content_to == markers::line_start(list, e)
}

/// Whether a file's header comes from its file marker
pub open spec fn is_file_marker(list: Seq<Seq<char>>, total: nat, header: HeaderModel) -> bool {
    let f = header.first_line - 1;
    &&& 0 <= f < header.last_line <= list.len()
    &&& !markers::continues(list, header.last_line as int)
    &&& text::split_once_spec(list[f], markers::MARKER_PREFIX@) matches Some((_, after))
    &&& {
        let (marker, last) = markers::body_spec(list, f, after);
        &&& last == header.last_line - 1
        &&& markers::takes_continuations(text::trimmed(after))
        &&& markers::file_options_spec(marker) matches Some(options_text) && options::options_spec(
            options_text,
        ) == Ok::<_, Seq<char>>(header.options)
        &&& header == markers::header_spec(
            markers::span_spec(list, total, f, last),
            header.options,
        )
    }
}

/// Whether all that was found before line `i` comes from markers
pub open spec fn traced(list: Seq<Seq<char>>, total: nat, i: int, scan: ScanModel) -> bool {
    &&& markers::open_names(scan.open).no_duplicates()
    &&& forall|k: int|
        0 <= k < scan.open.len() ==> opened(list, total, #[trigger] scan.open[k])
            && scan.open[k].header.last_line <= i
    &&& forall|k: int|
        0 <= k < scan.markers.sections.len() ==> closed(
            list,
            total,
            #[trigger] scan.markers.sections[k],
        )
    &&& scan.markers.file matches Some(header) ==> is_file_marker(list, total, header)
}

// ---------------------------------------------------------------------------
// One marker
// ---------------------------------------------------------------------------

/// Only file and start markers have options after their line
proof fn lemma_marker_kind(list: Seq<Seq<char>>, i: int, after: Seq<char>)
    ensures
        ({
            let (marker, last) = markers::body_spec(list, i, after);
            let takes = markers::takes_continuations(text::trimmed(after));
            &&& markers::file_options_spec(marker) is Some ==> takes
            &&& markers::start_spec(marker) is Some ==> takes
            &&& markers::file_options_spec(marker) is None && markers::start_spec(marker) is None
                && markers::end_spec(marker) is Some ==> !takes && last == i && marker
                == text::trimmed(after)
        }),
{
    let trimmed = text::trimmed(after);
    let (marker, last) = markers::body_spec(list, i, after);
    let takes = markers::takes_continuations(trimmed);
    reveal_strlit("file");
    reveal_strlit("start section");
    reveal_strlit("start section \"");
    reveal_strlit("end section \"");
    if takes {
        // Joined text starts with the marker's own
        let count = markers::continuation_count(list, i + 1);
        let parts = seq![trimmed] + markers::continuation_texts(list, i + 1, count);
        if count > 0 {
            let rest = markers::continuation_texts(list, i + 1, count);
            lines::lemma_join_concat(seq![trimmed], rest, " "@);
            assert(lines::join(seq![trimmed], " "@) == trimmed);
        } else {
            assert(parts =~= seq![trimmed]);
        }
        assert(trimmed.is_prefix_of(marker));
        assert(marker[0] == trimmed[0]);
        if markers::end_spec(marker) is Some {
            assert(marker.take("end section \""@.len() as int)[0] == 'e');
            if "file"@.is_prefix_of(trimmed) {
                assert(trimmed.take(4)[0] == 'f');
            } else {
                assert(trimmed.take(13)[0] == 's');
            }
        }
    } else {
        if markers::start_spec(marker) is Some {
            assert("start section"@.is_prefix_of(marker)) by {
                assert("start section \""@.take(13) =~= "start section"@);
                assert(marker.take(14) == "start section \""@);
                assert(marker.take(13) =~= marker.take(14).take(13));
            }
        }
    }
}

pub proof fn lemma_opened_names(scan: ScanModel, next: ScanModel, p: int, open: OpenModel)
    requires
        0 <= p <= scan.open.len(),
        next.open == scan.open.insert(p, open),
        markers::open_names(scan.open).no_duplicates(),
        !markers::open_names(scan.open).contains(open.name),
    ensures
        markers::open_names(next.open).no_duplicates(),
        has_open(next, open),
{
    let names = markers::open_names(scan.open);
    let after = markers::open_names(next.open);
    assert(after =~= names.insert(p, open.name));
    assert forall|j: int| 0 <= j < after.len() && j != p implies after[j] != open.name by {
        if j < p {
            assert(after[j] == names[j]);
            assert(names.contains(names[j]));
        } else {
            assert(after[j] == names[j - 1]);
            assert(names.contains(names[j - 1]));
        }
    }
    assert forall|i: int, j: int|
        0 <= i < after.len() && 0 <= j < after.len() && i != j implies after[i] != after[j] by {
        if i != p && j != p {
            let a = if i < p {
                i
            } else {
                i - 1
            };
            let b = if j < p {
                j
            } else {
                j - 1
            };
            assert(after[i] == names[a]);
            assert(after[j] == names[b]);
        }
    }
    assert(after[p] == open.name);
    markers::lemma_index_of_is(after, open.name, p);
}

/// A scan goes on after a marker
pub proof fn lemma_arrives_after(
    list: Seq<Seq<char>>,
    total: nat,
    i: int,
    after: Seq<char>,
    scan: ScanModel,
)
    requires
        0 <= i < list.len(),
        text::split_once_spec(list[i], markers::MARKER_PREFIX@) matches Some((_, found)) && found
            == after,
        arrives(list, total, i, scan),
    ensures
        ({
            let last = markers::body_spec(list, i, after).1;
            let next = edit_laws::after_marker(list, total, i, after, scan);
            &&& i <= last < list.len()
            &&& scan_before(list, total, i) == scan
            &&& scan_before(list, total, last + 1) == next
            &&& arrives(list, total, last + 1, next)
            &&& markers::takes_continuations(text::trimmed(after)) ==> !markers::continues(
                list,
                last + 1,
            )
        }),
{
    let last = markers::body_spec(list, i, after).1;
    let next = edit_laws::after_marker(list, total, i, after, scan);
    markers::lemma_continuation_count(list, i + 1);
    assert(scan_before(list, total, i) == edit_laws::scan_to(list, total, i, i, scan));
    assert forall|stop: int| last + 1 <= stop implies #[trigger] scan_before(list, total, stop)
        == edit_laws::scan_to(list, total, last + 1, stop, next) by {
        assert(scan_before(list, total, stop) == edit_laws::scan_to(list, total, i, stop, scan));
    }
    assert(scan_before(list, total, last + 1) == edit_laws::scan_to(
        list,
        total,
        last + 1,
        last + 1,
        next,
    ));
}

/// A start marker opens its section
proof fn lemma_trace_start(
    list: Seq<Seq<char>>,
    total: nat,
    i: int,
    after: Seq<char>,
    scan: ScanModel,
)
    requires
        0 <= i < list.len(),
        text::split_once_spec(list[i], markers::MARKER_PREFIX@) matches Some((_, found)) && found
            == after,
        arrives(list, total, i, scan),
        traced(list, total, i, scan),
        ({
            let (marker, last) = markers::body_spec(list, i, after);
            let span = markers::span_spec(list, total, i, last);
            &&& markers::record_spec(marker, span, scan) is Ok
            &&& markers::file_options_spec(marker) is None
            &&& markers::start_spec(marker) is Some
        }),
    ensures
        traced(
            list,
            total,
            markers::body_spec(list, i, after).1 + 1,
            edit_laws::after_marker(list, total, i, after, scan),
        ),
{
    let (marker, last) = markers::body_spec(list, i, after);
    let span = markers::span_spec(list, total, i, last);
    let next = edit_laws::after_marker(list, total, i, after, scan);
    lemma_marker_kind(list, i, after);
    lemma_arrives_after(list, total, i, after, scan);
    let names = markers::open_names(scan.open);
    let (name, options_text) = markers::start_spec(marker)->0;
    markers::lemma_place(names, name);
    let p = markers::place(names, name);
    let header = markers::header_spec(span, options::options_spec(options_text)->Ok_0);
    let open = OpenModel { name, header };
    assert(next.open == scan.open.insert(p, open));
    lemma_opened_names(scan, next, p, open);
    assert(is_start(list, total, name, header));
    assert(opened(list, total, open)) by {
        reveal(opened);
    }
    assert forall|k: int| 0 <= k < next.open.len() implies opened(
        list,
        total,
        #[trigger] next.open[k],
    ) && next.open[k].header.last_line <= last + 1 by {
        if k < p {
            assert(next.open[k] == scan.open[k]);
        } else if k > p {
            assert(next.open[k] == scan.open[k - 1]);
        }
    }
}

/// An end marker closes its section
proof fn lemma_trace_end(
    list: Seq<Seq<char>>,
    total: nat,
    i: int,
    after: Seq<char>,
    scan: ScanModel,
)
    requires
        0 <= i < list.len(),
        text::split_once_spec(list[i], markers::MARKER_PREFIX@) matches Some((_, found)) && found
            == after,
        arrives(list, total, i, scan),
        traced(list, total, i, scan),
        ({
            let (marker, last) = markers::body_spec(list, i, after);
            let span = markers::span_spec(list, total, i, last);
            &&& markers::record_spec(marker, span, scan) is Ok
            &&& markers::file_options_spec(marker) is None
            &&& markers::start_spec(marker) is None
        }),
    ensures
        traced(
            list,
            total,
            markers::body_spec(list, i, after).1 + 1,
            edit_laws::after_marker(list, total, i, after, scan),
        ),
{
    let (marker, last) = markers::body_spec(list, i, after);
    let span = markers::span_spec(list, total, i, last);
    let next = edit_laws::after_marker(list, total, i, after, scan);
    lemma_marker_kind(list, i, after);
    lemma_arrives_after(list, total, i, after, scan);
    let names = markers::open_names(scan.open);
    let name = markers::end_spec(marker)->0;
    markers::lemma_index_of(names, name);
    let at = markers::index_of(names, name)->0;
    let open = scan.open[at];
    let section = SectionModel {
        name,
        header: open.header,
        content_from: open.header.marker_to,
        content_to: span.last_line_start,
        end_line: span.last_line,
    };
    assert(names[at] == open.name);
    assert(open_part(section) == open);
    assert(has_open(scan, open));
    assert(opened(list, total, open));
    assert(is_end(list, name, i));
    assert(closed(list, total, section)) by {
        reveal(closed);
    }
    assert forall|k: int| 0 <= k < next.open.len() implies opened(
        list,
        total,
        #[trigger] next.open[k],
    ) && next.open[k].header.last_line <= last + 1 by {
        if k < at {
            assert(next.open[k] == scan.open[k]);
        } else {
            assert(next.open[k] == scan.open[k + 1]);
        }
    }
    let after_names = markers::open_names(next.open);
    assert(after_names =~= names.remove(at));
    assert(after_names.no_duplicates());
    let sections = scan.markers.sections;
    let section_names = markers::section_names(sections);
    markers::lemma_index_of(section_names, name);
    markers::lemma_place(section_names, name);
    assert forall|k: int| 0 <= k < next.markers.sections.len() implies closed(
        list,
        total,
        #[trigger] next.markers.sections[k],
    ) by {
        match markers::index_of(section_names, name) {
            Some(m) => {
                if k != m {
                    assert(next.markers.sections[k] == sections[k]);
                }
            },
            None => {
                let p = markers::place(section_names, name);
                if k < p {
                    assert(next.markers.sections[k] == sections[k]);
                } else if k > p {
                    assert(next.markers.sections[k] == sections[k - 1]);
                }
            },
        }
    }
}

/// A marker adds only what comes from it
proof fn lemma_trace_step(
    list: Seq<Seq<char>>,
    total: nat,
    i: int,
    after: Seq<char>,
    scan: ScanModel,
)
    requires
        0 <= i < list.len(),
        text::split_once_spec(list[i], markers::MARKER_PREFIX@) matches Some((_, found)) && found
            == after,
        arrives(list, total, i, scan),
        traced(list, total, i, scan),
    ensures
        ({
            let last = markers::body_spec(list, i, after).1;
            let next = edit_laws::after_marker(list, total, i, after, scan);
            &&& i <= last < list.len()
            &&& arrives(list, total, last + 1, next)
            &&& traced(list, total, last + 1, next)
        }),
{
    let (marker, last) = markers::body_spec(list, i, after);
    let span = markers::span_spec(list, total, i, last);
    let next = edit_laws::after_marker(list, total, i, after, scan);
    lemma_arrives_after(list, total, i, after, scan);
    if markers::record_spec(marker, span, scan) is Ok {
        if markers::file_options_spec(marker) is Some {
            lemma_marker_kind(list, i, after);
            assert(is_file_marker(list, total, next.markers.file->0));
        } else if markers::start_spec(marker) is Some {
            lemma_trace_start(list, total, i, after, scan);
        } else {
            lemma_trace_end(list, total, i, after, scan);
        }
    }
}

proof fn lemma_trace(list: Seq<Seq<char>>, total: nat, i: int, scan: ScanModel)
    requires
        0 <= i <= list.len(),
        arrives(list, total, i, scan),
        traced(list, total, i, scan),
    ensures
        traced(list, total, list.len() as int, markers::scan_spec(list, total, i, scan)),
    decreases list.len() - i,
{
    if i < list.len() {
        match text::split_once_spec(list[i], markers::MARKER_PREFIX@) {
            None => {
                assert(arrives(list, total, i + 1, scan)) by {
                    assert forall|stop: int| i + 1 <= stop implies #[trigger] scan_before(
                        list,
                        total,
                        stop,
                    ) == edit_laws::scan_to(list, total, i + 1, stop, scan) by {
                        assert(scan_before(list, total, stop) == edit_laws::scan_to(
                            list,
                            total,
                            i,
                            stop,
                            scan,
                        ));
                    }
                }
                lemma_trace(list, total, i + 1, scan);
            },
            Some((_, after)) => {
                lemma_trace_step(list, total, i, after, scan);
                lemma_trace(
                    list,
                    total,
                    markers::body_spec(list, i, after).1 + 1,
                    edit_laws::after_marker(list, total, i, after, scan),
                );
            },
        }
    }
}

/// All the markers of a text come from its lines
pub proof fn lemma_traced(s: Seq<char>)
    ensures
        traced(
            lines::split(s, '\n'),
            bytes::byte_len(s),
            lines::split(s, '\n').len() as int,
            edit_laws::scan_of(s),
        ),
{
    let list = lines::split(s, '\n');
    let total = bytes::byte_len(s);
    let empty = edit_laws::empty_scan();
    assert(arrives(list, total, 0, empty));
    assert(traced(list, total, 0, empty)) by {
        assert(markers::open_names(empty.open).len() == 0);
    }
    lemma_trace(list, total, 0, empty);
}

// ---------------------------------------------------------------------------
// Parts of a scan
// ---------------------------------------------------------------------------

/// A scan up to a line goes through each line that continues nothing
pub proof fn lemma_split_at(
    list: Seq<Seq<char>>,
    total: nat,
    i: int,
    stop: int,
    end: int,
    scan: ScanModel,
)
    requires
        0 <= i <= stop <= end <= list.len(),
        !markers::continues(list, stop),
    ensures
        edit_laws::scan_to(list, total, i, end, scan) == edit_laws::scan_to(
            list,
            total,
            stop,
            end,
            edit_laws::scan_to(list, total, i, stop, scan),
        ),
    decreases stop - i,
{
    if i < stop {
        match text::split_once_spec(list[i], markers::MARKER_PREFIX@) {
            None => {
                lemma_split_at(list, total, i + 1, stop, end, scan);
            },
            Some((_, after)) => {
                edit_laws::lemma_count_stops(list, i + 1, stop);
                let last = markers::body_spec(list, i, after).1;
                lemma_split_at(
                    list,
                    total,
                    last + 1,
                    stop,
                    end,
                    edit_laws::after_marker(list, total, i, after, scan),
                );
            },
        }
    }
}

/// Lines without markers add nothing
pub proof fn lemma_skip_to(
    list: Seq<Seq<char>>,
    total: nat,
    i: int,
    stop: int,
    end: int,
    scan: ScanModel,
)
    requires
        0 <= i <= stop <= end <= list.len(),
        forall|k: int|
            i <= k < stop ==> !text::occurs(#[trigger] list[k], markers::MARKER_PREFIX@),
    ensures
        edit_laws::scan_to(list, total, i, end, scan) == edit_laws::scan_to(
            list,
            total,
            stop,
            end,
            scan,
        ),
    decreases stop - i,
{
    if i < stop {
        text::lemma_find(list[i], markers::MARKER_PREFIX@);
        assert(!text::occurs(list[i], markers::MARKER_PREFIX@));
        if let Some(k) = text::find_spec(list[i], markers::MARKER_PREFIX@) {
            assert(text::occurs_at(list[i], markers::MARKER_PREFIX@, k));
        }
        lemma_skip_to(list, total, i + 1, stop, end, scan);
    }
}

proof fn lemma_same_starts(first: Seq<Seq<char>>, second: Seq<Seq<char>>, stop: int, k: int)
    requires
        0 <= k <= stop <= first.len(),
        stop <= second.len(),
        first.take(stop) == second.take(stop),
    ensures
        markers::line_start(first, k) == markers::line_start(second, k),
    decreases k,
{
    if k > 0 {
        assert(first[k - 1] == first.take(stop)[k - 1]);
        assert(second[k - 1] == second.take(stop)[k - 1]);
        lemma_same_starts(first, second, stop, k - 1);
    }
}

/// The length of some lines as a text
pub open spec fn length_of(list: Seq<Seq<char>>) -> nat {
    bytes::byte_len(lines::join(list, seq!['\n']))
}

/// The same lines, with more after them, hold the same markers
pub proof fn lemma_same_scan(
    first: Seq<Seq<char>>,
    second: Seq<Seq<char>>,
    i: int,
    stop: int,
    scan: ScanModel,
)
    requires
        0 <= i <= stop < first.len(),
        stop < second.len(),
        first.take(stop) == second.take(stop),
        !markers::continues(first, stop),
        !markers::continues(second, stop),
    ensures
        edit_laws::scan_to(first, length_of(first), i, stop, scan) == edit_laws::scan_to(
            second,
            length_of(second),
            i,
            stop,
            scan,
        ),
    decreases stop - i,
{
    if i < stop {
        assert(first[i] == first.take(stop)[i]);
        assert(second[i] == second.take(stop)[i]);
        match text::split_once_spec(first[i], markers::MARKER_PREFIX@) {
            None => {
                lemma_same_scan(first, second, i + 1, stop, scan);
            },
            Some((_, after)) => {
                edit_laws::lemma_same_body(first, second, i, stop, after);
                let last = markers::body_spec(first, i, after).1;
                lemma_same_starts(first, second, stop, i);
                lemma_same_starts(first, second, stop, last);
                assert(first[last] == first.take(stop)[last]);
                assert(second[last] == second.take(stop)[last]);
                markers::lemma_line_start_bound(first, last);
                markers::lemma_line_start_bound(second, last);
                assert(markers::span_spec(first, length_of(first), i, last) == markers::span_spec(
                    second,
                    length_of(second),
                    i,
                    last,
                ));
                lemma_same_scan(
                    first,
                    second,
                    last + 1,
                    stop,
                    edit_laws::after_marker(first, length_of(first), i, after, scan),
                );
            },
        }
    }
}

// ---------------------------------------------------------------------------
// Lines that moved
// ---------------------------------------------------------------------------

proof fn lemma_moved_count(
    first: Seq<Seq<char>>,
    second: Seq<Seq<char>>,
    i: int,
    stop: int,
    d: int,
)
    requires
        0 <= i <= stop <= first.len(),
        0 <= i + d,
        stop + d <= second.len(),
        forall|k: int| i <= k < stop ==> #[trigger] first[k] == second[k + d],
        !markers::continues(first, stop),
        !markers::continues(second, stop + d),
    ensures
        markers::continuation_count(first, i) == markers::continuation_count(second, i + d),
        i + markers::continuation_count(first, i) <= stop,
    decreases stop - i,
{
    if i < stop {
        assert(first[i] == second[i + d]);
        assert(markers::continues(first, i) == markers::continues(second, i + d));
        lemma_moved_count(first, second, i + 1, stop, d);
    }
}

/// The same marker on lines that moved
pub proof fn lemma_moved_body(
    first: Seq<Seq<char>>,
    second: Seq<Seq<char>>,
    i: int,
    stop: int,
    d: int,
    after: Seq<char>,
)
    requires
        0 <= i < stop <= first.len(),
        0 <= i + d,
        stop + d <= second.len(),
        forall|k: int| i < k < stop ==> #[trigger] first[k] == second[k + d],
        !markers::continues(first, stop),
        !markers::continues(second, stop + d),
    ensures
        ({
            let (marker, last) = markers::body_spec(first, i, after);
            &&& markers::body_spec(second, i + d, after) == (marker, last + d)
            &&& i <= last < stop
        }),
{
    lemma_moved_count(first, second, i + 1, stop, d);
    let count = markers::continuation_count(first, i + 1);
    assert(markers::continuation_texts(first, i + 1, count) =~= markers::continuation_texts(
        second,
        i + d + 1,
        count,
    )) by {
        assert forall|m: int| 0 <= m < count implies first[i + 1 + m] == #[trigger] second[i + d + 1
            + m] by {
            assert(first[i + 1 + m] == second[i + 1 + m + d]);
        }
    }
}

/// Whether two scans found sections of the same names, and one of them open as
/// `first_open` and `second_open`, or neither
pub open spec fn alike(
    first: ScanModel,
    first_open: OpenModel,
    second: ScanModel,
    second_open: OpenModel,
) -> bool {
    &&& edit_laws::same_names(first, second)
    &&& first_open.name == second_open.name
    &&& edit_laws::knows(first, first_open.name)
    &&& markers::open_names(first.open).no_duplicates()
    &&& has_open(first, first_open) == has_open(second, second_open)
}

proof fn lemma_open_insert(scan: ScanModel, next: ScanModel, p: int, added: OpenModel, open: OpenModel)
    requires
        0 <= p <= scan.open.len(),
        next.open == scan.open.insert(p, added),
        added.name != open.name,
    ensures
        has_open(next, open) == has_open(scan, open),
{
    let names = markers::open_names(scan.open);
    let after = markers::open_names(next.open);
    assert(after =~= names.insert(p, added.name));
    markers::lemma_index_of(names, open.name);
    markers::lemma_index_of(after, open.name);
    match markers::index_of(names, open.name) {
        Some(k) => {
            let m = if k < p {
                k
            } else {
                k + 1
            };
            assert forall|j: int| 0 <= j < m implies after[j] != open.name by {
                if j < p {
                    assert(after[j] == names[j]);
                } else if j > p {
                    assert(after[j] == names[j - 1]);
                }
            }
            markers::lemma_index_of_is(after, open.name, m);
            assert(next.open[m] == scan.open[k]);
        },
        None => {
            if let Some(m) = markers::index_of(after, open.name) {
                if m < p {
                    assert(names[m] == open.name);
                } else if m > p {
                    assert(names[m - 1] == open.name);
                }
                assert(names.contains(open.name));
            }
        },
    }
}

proof fn lemma_open_remove(scan: ScanModel, next: ScanModel, at: int, open: OpenModel)
    requires
        0 <= at < scan.open.len(),
        next.open == scan.open.remove(at),
        scan.open[at].name != open.name,
    ensures
        has_open(next, open) == has_open(scan, open),
{
    assert(next.open.insert(at, scan.open[at]) =~= scan.open);
    lemma_open_insert(next, scan, at, scan.open[at], open);
}

proof fn lemma_closed_name(scan: ScanModel, next: ScanModel, at: int, open: OpenModel)
    requires
        0 <= at < scan.open.len(),
        next.open == scan.open.remove(at),
        scan.open[at].name == open.name,
        markers::open_names(scan.open).no_duplicates(),
    ensures
        !has_open(next, open),
        !markers::open_names(next.open).contains(open.name),
{
    let names = markers::open_names(scan.open);
    let after = markers::open_names(next.open);
    assert(after =~= names.remove(at));
    markers::lemma_index_of(after, open.name);
    if after.contains(open.name) {
        let m = choose|m: int| 0 <= m < after.len() && after[m] == open.name;
        let k = if m < at {
            m
        } else {
            m + 1
        };
        assert(names[k] == names[at]);
    }
}

proof fn lemma_names_stay_distinct(marker: Seq<char>, span: SpanModel, scan: ScanModel)
    requires
        markers::open_names(scan.open).no_duplicates(),
    ensures
        markers::record_spec(marker, span, scan) matches Ok(next) ==> markers::open_names(
            next.open,
        ).no_duplicates(),
{
    let names = markers::open_names(scan.open);
    if let Ok(next) = markers::record_spec(marker, span, scan) {
        if markers::file_options_spec(marker) is Some {
        } else if let Some((name, options_text)) = markers::start_spec(marker) {
            markers::lemma_place(names, name);
            let p = markers::place(names, name);
            lemma_opened_names(scan, next, p, next.open[p]);
        } else if let Some(name) = markers::end_spec(marker) {
            markers::lemma_index_of(names, name);
            let at = markers::index_of(names, name)->0;
            assert(markers::open_names(next.open) =~= names.remove(at));
        }
    }
}

proof fn lemma_record_alike(
    marker: Seq<char>,
    first_span: SpanModel,
    first: ScanModel,
    first_open: OpenModel,
    second_span: SpanModel,
    second: ScanModel,
    second_open: OpenModel,
)
    requires
        alike(first, first_open, second, second_open),
    ensures
        match (
            markers::record_spec(marker, first_span, first),
            markers::record_spec(marker, second_span, second),
        ) {
            (Ok(a), Ok(b)) => alike(a, first_open, b, second_open),
            (Err(_), Err(_)) => true,
            _ => false,
        },
{
    let name = first_open.name;
    edit_laws::lemma_record_names(marker, first_span, first, second_span, second);
    edit_laws::lemma_record_keeps_name(marker, first_span, first, name);
    lemma_names_stay_distinct(marker, first_span, first);
    let names = markers::open_names(first.open);
    if let (Ok(a), Ok(b)) = (
        markers::record_spec(marker, first_span, first),
        markers::record_spec(marker, second_span, second),
    ) {
        if markers::file_options_spec(marker) is Some {
            assert(has_open(a, first_open) == has_open(first, first_open));
            assert(has_open(b, second_open) == has_open(second, second_open));
        } else if let Some((other, options_text)) = markers::start_spec(marker) {
            markers::lemma_place(names, other);
            let p = markers::place(names, other);
            assert(other != name);
            assert(first.open.len() == names.len());
            assert(second.open.len() == markers::open_names(second.open).len());
            lemma_open_insert(first, a, p, a.open[p], first_open);
            lemma_open_insert(second, b, p, b.open[p], second_open);
        } else if let Some(other) = markers::end_spec(marker) {
            markers::lemma_index_of(names, other);
            let at = markers::index_of(names, other)->0;
            assert(first.open.len() == names.len());
            assert(second.open.len() == markers::open_names(second.open).len());
            assert(first.open[at].name == names[at]);
            assert(second.open[at].name == markers::open_names(second.open)[at]);
            if other == name {
                lemma_closed_name(first, a, at, first_open);
                lemma_closed_name(second, b, at, second_open);
            } else {
                lemma_open_remove(first, a, at, first_open);
                lemma_open_remove(second, b, at, second_open);
            }
        }
    }
}

/// Lines that moved hold the same markers
pub proof fn lemma_moved_scan(
    first: Seq<Seq<char>>,
    first_total: nat,
    first_scan: ScanModel,
    first_open: OpenModel,
    second: Seq<Seq<char>>,
    second_total: nat,
    second_scan: ScanModel,
    second_open: OpenModel,
    i: int,
    stop: int,
    d: int,
)
    requires
        0 <= i <= stop <= first.len(),
        0 <= i + d,
        stop + d <= second.len(),
        forall|k: int| i <= k < stop ==> #[trigger] first[k] == second[k + d],
        !markers::continues(first, stop),
        !markers::continues(second, stop + d),
        alike(first_scan, first_open, second_scan, second_open),
    ensures
        alike(
            edit_laws::scan_to(first, first_total, i, stop, first_scan),
            first_open,
            edit_laws::scan_to(second, second_total, i + d, stop + d, second_scan),
            second_open,
        ),
    decreases stop - i,
{
    if i < stop {
        assert(first[i] == second[i + d]);
        match text::split_once_spec(first[i], markers::MARKER_PREFIX@) {
            None => {
                lemma_moved_scan(
                    first,
                    first_total,
                    first_scan,
                    first_open,
                    second,
                    second_total,
                    second_scan,
                    second_open,
                    i + 1,
                    stop,
                    d,
                );
            },
            Some((_, after)) => {
                lemma_moved_body(first, second, i, stop, d, after);
                let (marker, last) = markers::body_spec(first, i, after);
                lemma_record_alike(
                    marker,
                    markers::span_spec(first, first_total, i, last),
                    first_scan,
                    first_open,
                    markers::span_spec(second, second_total, i + d, last + d),
                    second_scan,
                    second_open,
                );
                lemma_moved_scan(
                    first,
                    first_total,
                    edit_laws::after_marker(first, first_total, i, after, first_scan),
                    first_open,
                    second,
                    second_total,
                    edit_laws::after_marker(second, second_total, i + d, after, second_scan),
                    second_open,
                    last + 1,
                    stop,
                    d,
                );
            },
        }
    }
}

/// An end marker closes the section that is open, which then stays as it is
pub proof fn lemma_closes(
    list: Seq<Seq<char>>,
    total: nat,
    e: int,
    scan: ScanModel,
    open: OpenModel,
)
    requires
        is_end(list, open.name, e),
        has_open(scan, open),
        markers::open_names(scan.open).no_duplicates(),
    ensures
        markers::section_spec(
            markers::scan_spec(list, total, e, scan).markers,
            open.name,
        ) == Some(
            SectionModel {
                name: open.name,
                header: open.header,
                content_from: open.header.marker_to,
                content_to: markers::line_start(list, e),
                end_line: (e + 1) as nat,
            },
        ),
{
    let name = open.name;
    let (_, after) = text::split_once_spec(list[e], markers::MARKER_PREFIX@)->0;
    let marker = text::trimmed(after);
    assert(markers::body_spec(list, e, after) == (marker, e));
    let span = markers::span_spec(list, total, e, e);
    let names = markers::open_names(scan.open);
    markers::lemma_index_of(names, name);
    let at = markers::index_of(names, name)->0;
    let next = markers::record_spec(marker, span, scan)->Ok_0;
    let section = SectionModel {
        name,
        header: open.header,
        content_from: open.header.marker_to,
        content_to: span.last_line_start,
        end_line: span.last_line,
    };
    let sections = scan.markers.sections;
    let section_names = markers::section_names(sections);
    markers::lemma_index_of(section_names, name);
    markers::lemma_place(section_names, name);
    edit_laws::lemma_with_section_names(sections, section);
    let after_names = markers::section_names(next.markers.sections);
    match markers::index_of(section_names, name) {
        Some(_) => {},
        None => {
            let p = markers::place(section_names, name);
            assert forall|j: int| 0 <= j < p implies after_names[j] != name by {
                assert(after_names[j] == section_names[j]);
                assert(section_names.contains(section_names[j]));
            }
            assert(after_names[p] == name);
            markers::lemma_index_of_is(after_names, name, p);
        },
    }
    lemma_closed_name(scan, next, at, open);
    assert(edit_laws::holds_section(next, section));
    edit_laws::lemma_scan_holds(list, total, e + 1, next, section);
    markers::lemma_continuation_count(list, e + 1);
}

// ---------------------------------------------------------------------------
// Markers that can't be read
// ---------------------------------------------------------------------------

/// Problems stay
proof fn lemma_problems_stay(list: Seq<Seq<char>>, total: nat, i: int, scan: ScanModel)
    requires
        0 <= i <= list.len(),
    ensures
        scan.markers.problems.is_prefix_of(
            markers::scan_spec(list, total, i, scan).markers.problems,
        ),
    decreases list.len() - i,
{
    if i < list.len() {
        match text::split_once_spec(list[i], markers::MARKER_PREFIX@) {
            None => {
                lemma_problems_stay(list, total, i + 1, scan);
            },
            Some((_, after)) => {
                markers::lemma_continuation_count(list, i + 1);
                let last = markers::body_spec(list, i, after).1;
                let next = edit_laws::after_marker(list, total, i, after, scan);
                lemma_problems_stay(list, total, last + 1, next);
                let all = markers::scan_spec(list, total, i, scan).markers.problems;
                let before = scan.markers.problems;
                assert(before.is_prefix_of(next.markers.problems)) by {
                    assert(next.markers.problems.take(before.len() as int) =~= before);
                }
                assert(all.take(before.len() as int) =~= all.take(
                    next.markers.problems.len() as int,
                ).take(before.len() as int));
            },
        }
    }
}

/// A marker that can't be read is reported as a problem, with its line and what is wrong
/// with it
pub proof fn law_unread_markers_are_reported(s: Seq<char>, i: int)
    requires
        ({
            let list = lines::split(s, '\n');
            let total = bytes::byte_len(s);
            let scan = scan_before(list, total, i);
            &&& 0 <= i < list.len()
            &&& text::split_once_spec(list[i], markers::MARKER_PREFIX@) matches Some((_, after))
                && ({
                let (marker, last) = markers::body_spec(list, i, after);
                markers::record_spec(
                    marker,
                    markers::span_spec(list, total, i, last),
                    scan,
                ) is Err
            })
        }),
    ensures
        ({
            let list = lines::split(s, '\n');
            let total = bytes::byte_len(s);
            let scan = scan_before(list, total, i);
            let (_, after) = text::split_once_spec(list[i], markers::MARKER_PREFIX@)->0;
            let (marker, last) = markers::body_spec(list, i, after);
            let error = markers::record_spec(
                marker,
                markers::span_spec(list, total, i, last),
                scan,
            )->Err_0;
            markers::markers_spec(s).problems.contains(
                markers::line_problem((i + 1) as nat, error),
            )
        }),
{
    let list = lines::split(s, '\n');
    let total = bytes::byte_len(s);
    let empty = edit_laws::empty_scan();
    let scan = scan_before(list, total, i);
    let (_, after) = text::split_once_spec(list[i], markers::MARKER_PREFIX@)->0;
    let (marker, last) = markers::body_spec(list, i, after);
    let span = markers::span_spec(list, total, i, last);
    let error = markers::record_spec(marker, span, scan)->Err_0;
    let problem = markers::line_problem((i + 1) as nat, error);
    // The scan comes to the line, which holds a marker
    text::lemma_find(list[i], markers::MARKER_PREFIX@);
    let at = text::find_spec(list[i], markers::MARKER_PREFIX@)->0;
    assert(text::occurs_at(list[i], markers::MARKER_PREFIX@, at));
    edit_laws::lemma_scan_split(list, total, 0, i, empty);
    markers::lemma_continuation_count(list, i + 1);
    let next = edit_laws::after_marker(list, total, i, after, scan);
    lemma_problems_stay(list, total, last + 1, next);
    let all = markers::scan_spec(list, total, 0, empty).markers.problems;
    let k = scan.markers.problems.len() as int;
    assert(next.markers.problems[k] == problem);
    assert(all.take(k + 1)[k] == all[k]);
    let reported = markers::markers_spec(s).problems;
    assert(reported[k] == all[k]);
}

} // verus!
