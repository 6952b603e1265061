//! What holds of one marker after another.

use crate::edit_laws;
use crate::markers;
use crate::markers::OpenModel;
use crate::markers::ScanModel;
use crate::markers::SectionModel;
use crate::markers::SpanModel;
use crate::options;
use crate::text;
use vstd::prelude::*;

verus! {

/// A section's start marker, and what follows it
pub open spec fn start_marker(name: Seq<char>, rest: Seq<char>) -> Seq<char> {
    "start section \""@ + name + seq!['"'] + rest
}

/// A section's end marker
pub open spec fn end_marker(name: Seq<char>) -> Seq<char> {
    "end section \""@ + name + seq!['"']
}

/// Whether a section with a name is open
pub open spec fn is_open(scan: ScanModel, name: Seq<char>) -> bool {
    exists|i: int| 0 <= i < scan.open.len() && (#[trigger] scan.open[i]).name == name
}

/// Whether there is a section with a name
pub open spec fn is_section(scan: ScanModel, name: Seq<char>) -> bool {
    exists|i: int|
        0 <= i < scan.markers.sections.len() && (#[trigger] scan.markers.sections[i]).name == name
}

proof fn lemma_is_open(scan: ScanModel, name: Seq<char>)
    ensures
        is_open(scan, name) == markers::open_names(scan.open).contains(name),
        is_section(scan, name) == markers::section_names(scan.markers.sections).contains(name),
{
    let open = markers::open_names(scan.open);
    let sections = markers::section_names(scan.markers.sections);
    if is_open(scan, name) {
        let i = choose|i: int| 0 <= i < scan.open.len() && (#[trigger] scan.open[i]).name == name;
        assert(open[i] == name);
    }
    if open.contains(name) {
        let i = choose|i: int| 0 <= i < open.len() && open[i] == name;
        assert(scan.open[i].name == name);
    }
    if is_section(scan, name) {
        let i = choose|i: int|
            0 <= i < scan.markers.sections.len() && (
            #[trigger] scan.markers.sections[i]).name == name;
        assert(sections[i] == name);
    }
    if sections.contains(name) {
        let i = choose|i: int| 0 <= i < sections.len() && sections[i] == name;
        assert(scan.markers.sections[i].name == name);
    }
}

proof fn lemma_start(name: Seq<char>, rest: Seq<char>)
    requires
        edit_laws::is_section_name(name),
        !rest.contains('\n'),
    ensures
        markers::file_options_spec(start_marker(name, rest)) is None,
        markers::start_spec(start_marker(name, rest)) == Some((name, rest)),
{
    reveal_strlit("\"");
    reveal_strlit("file");
    reveal_strlit("start section \"");
    let marker = start_marker(name, rest);
    assert("\""@ =~= seq!['"']);
    edit_laws::lemma_named("start section \""@, name, rest);
    if "file"@.is_prefix_of(marker) {
        assert(marker.take(4)[0] == 'f');
    }
}

proof fn lemma_end(name: Seq<char>)
    requires
        edit_laws::is_section_name(name),
    ensures
        markers::file_options_spec(end_marker(name)) is None,
        markers::start_spec(end_marker(name)) is None,
        markers::end_spec(end_marker(name)) == Some(name),
{
    reveal_strlit("\"");
    reveal_strlit("file");
    reveal_strlit("start section \"");
    reveal_strlit("end section \"");
    let marker = end_marker(name);
    let none = Seq::<char>::empty();
    assert("\""@ =~= seq!['"']);
    edit_laws::lemma_named("end section \""@, name, none);
    assert("end section \""@ + name + "\""@ + none =~= marker);
    if "file"@.is_prefix_of(marker) {
        assert(marker.take(4)[0] == 'f');
    }
    if "start section \""@.is_prefix_of(marker) {
        assert(marker.take("start section \""@.len() as int)[0] == 's');
    }
}

/// A start marker opens its section, with the options that follow it, unless there is one
/// with its name already or the options can't be read
pub proof fn law_start_marker(
    name: Seq<char>,
    rest: Seq<char>,
    span: SpanModel,
    scan: ScanModel,
)
    requires
        edit_laws::is_section_name(name),
        !rest.contains('\n'),
    ensures
        match markers::record_spec(start_marker(name, rest), span, scan) {
            Ok(after) => {
                &&& !is_open(scan, name) && !is_section(scan, name)
                &&& after.markers == scan.markers
                &&& after.open.len() == scan.open.len() + 1
                &&& exists|i: int| #[trigger]
                    opens_at(after, name, span, i) && options::options_spec(rest) == Ok::<
                        _,
                        Seq<char>,
                    >(after.open[i].header.options) && after.open.remove(i) == scan.open
            },
            Err(_) => is_open(scan, name) || is_section(scan, name) || options::options_spec(
                rest,
            ) is Err,
        },
{
    lemma_start(name, rest);
    lemma_is_open(scan, name);
    if let Ok(after) = markers::record_spec(start_marker(name, rest), span, scan) {
        let names = markers::open_names(scan.open);
        markers::lemma_place(names, name);
        let i = markers::place(names, name);
        assert(after.open.remove(i) =~= scan.open);
        assert(opens_at(after, name, span, i));
    }
}

/// Whether a section with a name is open from a marker at a span
pub open spec fn opens_at(scan: ScanModel, name: Seq<char>, span: SpanModel, i: int) -> bool {
    &&& 0 <= i < scan.open.len()
    &&& scan.open[i].name == name
    &&& scan.open[i].header.marker_from == span.marker_from
    &&& scan.open[i].header.marker_to == span.marker_to
    &&& scan.open[i].header.first_line == span.first_line
    &&& scan.open[i].header.last_line == span.last_line
}

/// Whether a section is what is between an open section's marker and an end marker
pub open spec fn is_closed(section: SectionModel, open: OpenModel, span: SpanModel) -> bool {
    &&& section.name == open.name
    &&& section.header == open.header
    &&& section.content_from == open.header.marker_to
    &&& section.content_to == span.last_line_start
    &&& section.end_line == span.last_line
}

/// An end marker closes the section with its name, which is what is between the two
/// markers. It is wrong when there is none open
pub proof fn law_end_marker(name: Seq<char>, span: SpanModel, scan: ScanModel)
    requires
        edit_laws::is_section_name(name),
    ensures
        match markers::record_spec(end_marker(name), span, scan) {
            Ok(after) => {
                &&& after.markers.file == scan.markers.file
                &&& exists|i: int|
                    0 <= i < scan.open.len() && (#[trigger] scan.open[i]).name == name
                        && after.open == scan.open.remove(i) && (exists|k: int|
                        0 <= k < after.markers.sections.len() && is_closed(
                            #[trigger] after.markers.sections[k],
                            scan.open[i],
                            span,
                        ))
            },
            Err(_) => !is_open(scan, name),
        },
{
    lemma_end(name);
    lemma_is_open(scan, name);
    let names = markers::open_names(scan.open);
    markers::lemma_index_of(names, name);
    if let Some(i) = markers::index_of(names, name) {
        let after = markers::record_spec(end_marker(name), span, scan)->Ok_0;
        assert(names[i] == scan.open[i].name);
        let sections = scan.markers.sections;
        let section_names = markers::section_names(sections);
        markers::lemma_index_of(section_names, name);
        markers::lemma_place(section_names, name);
        let k = match markers::index_of(section_names, name) {
            Some(k) => k,
            None => markers::place(section_names, name),
        };
        assert(is_closed(after.markers.sections[k], scan.open[i], span));
    }
}

/// A file marker is the marker of the whole file, with the options that follow it, unless
/// these can't be read
pub proof fn law_file_marker(rest: Seq<char>, span: SpanModel, scan: ScanModel)
    requires
        rest.len() > 0 ==> text::is_white(rest[0]),
        !rest.contains('\n'),
    ensures
        match markers::record_spec("file"@ + rest, span, scan) {
            Ok(after) => {
                &&& after.open == scan.open
                &&& after.markers.sections == scan.markers.sections
                &&& after.markers.file matches Some(header) && header.marker_from
                    == span.marker_from && header.marker_to == span.marker_to && header.first_line
                    == span.first_line && header.last_line == span.last_line
                    && options::options_spec(rest) == Ok::<_, Seq<char>>(header.options)
            },
            Err(_) => options::options_spec(rest) is Err,
        },
{
    let marker = "file"@ + rest;
    assert(marker.take("file"@.len() as int) =~= "file"@);
    assert(marker.skip("file"@.len() as int) =~= rest);
    if rest.len() > 0 && rest.skip(1).contains('\n') {
        let i = choose|i: int| 0 <= i < rest.skip(1).len() && rest.skip(1)[i] == '\n';
        assert(rest[i + 1] == '\n');
    }
}

/// Another marker is wrong
pub proof fn law_other_marker(marker: Seq<char>, span: SpanModel, scan: ScanModel)
    requires
        !"file"@.is_prefix_of(marker),
        !"start section \""@.is_prefix_of(marker),
        !"end section \""@.is_prefix_of(marker),
    ensures
        markers::record_spec(marker, span, scan) is Err,
{
}

} // verus!
