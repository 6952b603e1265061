//! What holds of the text around a change.

use crate::bytes;
use crate::edits;
use crate::edits::Rewrite;
use crate::lightbulb;
use crate::lines;
use crate::markers;
use crate::options::OptionModel;
use crate::text;
use crate::text::CharClass;
use vstd::prelude::*;

verus! {

// ---------------------------------------------------------------------------
// Markers
// ---------------------------------------------------------------------------

/// Whether `indent` is the whitespace that a line starts with
pub open spec fn is_indent(indent: Seq<char>, line: Seq<char>) -> bool {
    &&& indent.is_prefix_of(line)
    &&& forall|i: int| 0 <= i < indent.len() ==> text::is_white(#[trigger] indent[i])
    &&& indent.len() < line.len() ==> !text::is_white(line[indent.len() as int])
}

/// Whether lines are others with markers around some of them: the others are all there,
/// in order, and the markers are comments with the indentation of what they mark
pub open spec fn marks_lines(
    all: Seq<Seq<char>>,
    list: Seq<Seq<char>>,
    name: Seq<char>,
    first: int,
    count: int,
    options: int,
    indent: Seq<char>,
) -> bool {
    let start = first + 1 + options;
    &&& all.len() == list.len() + 2 + options
    &&& all.take(first) == list.take(first)
    &&& all[first] == indent + seq!['#', ' '] + ("@docs-as-code: start section \""@ + name
        + seq!['"'])
    &&& forall|i: int|
        first < i < start ==> (indent + seq!['#']).is_prefix_of(#[trigger] all[i])
    &&& all.subrange(start, start + count) == list.subrange(first, first + count)
    &&& all[start + count] == indent + seq!['#', ' '] + ("@docs-as-code: end section \""@ + name
        + seq!['"'])
    &&& all.skip(start + count + 1) == list.skip(first + count)
}

/// Marking lines as a section keeps all lines of the text, and adds the markers around
/// them, as comments with the indentation of the first of them
pub proof fn law_lines_stay_around_markers(
    s: Seq<char>,
    name: Seq<char>,
    first_line: nat,
    line_count: nat,
    added: Seq<OptionModel>,
    indent: Seq<char>,
)
    requires
        1 <= first_line <= lines::split(s, '\n').len(),
        first_line - 1 + line_count <= lines::split(s, '\n').len(),
        is_indent(indent, lines::split(s, '\n')[first_line - 1]),
    ensures
        exists|all: Seq<Seq<char>>|
            edits::mark_section_spec(s, name, first_line, line_count, added) == Ok::<_, Seq<char>>(
                #[trigger] lines::join(all, seq!['\n']),
            ) && marks_lines(
                all,
                lines::split(s, '\n'),
                name,
                first_line - 1,
                line_count as int,
                added.len() as int,
                indent,
            ),
{
    let list = lines::split(s, '\n');
    let first = first_line - 1;
    let count = line_count as int;
    let all = edits::marked_lines(list, name, first, count, added);
    let start = first + 1 + added.len();
    let line = list[first];
    reveal_strlit("\n");
    assert("\n"@ =~= seq!['\n']);
    assert(list.skip(first)[0] == line);
    assert forall|i: int| 0 <= i < indent.len() implies CharClass::White.has(line[i]) by {
        assert(line.take(indent.len() as int)[i] == indent[i]);
        assert(text::is_white(indent[i]));
    }
    text::lemma_span_is(line, CharClass::White, indent.len() as int);
    assert(edits::indent_of(list.skip(first)) =~= indent);
    assert(all.take(first) =~= list.take(first));
    assert(all.subrange(start, start + count) =~= list.subrange(first, first + count));
    assert(all.skip(start + count + 1) =~= list.skip(first + count));
    lemma_marker_texts(indent, name);
    assert(all[first] == indent + "# "@ + markers::section_start_text(name));
    assert(all[start + count] == edits::end_marker_line(indent, name));
    assert forall|i: int| first < i < start implies (indent + seq!['#']).is_prefix_of(
        #[trigger] all[i],
    ) by {
        let option = added[i - first - 1];
        assert(all[i] == edits::option_lines(indent, added)[i - first - 1]);
        reveal_strlit("#   | ");
        assert(all[i].take(indent.len() as int + 1) =~= indent + seq!['#']);
    }
    assert(marks_lines(all, list, name, first, count, added.len() as int, indent));
    assert(edits::mark_section_spec(s, name, first_line, line_count, added) == Ok::<_, Seq<char>>(
        lines::join(all, seq!['\n']),
    ));
}

proof fn lemma_marker_texts(indent: Seq<char>, name: Seq<char>)
    ensures
        indent + "# "@ + markers::section_start_text(name) == indent + seq!['#', ' '] + (
        "@docs-as-code: start section \""@ + name + seq!['"']),
        edits::end_marker_line(indent, name) == indent + seq!['#', ' '] + (
        "@docs-as-code: end section \""@ + name + seq!['"']),
{
    reveal_strlit("# ");
    reveal_strlit("\"");
    reveal_strlit("@docs-as-code:");
    reveal_strlit(" start section \"");
    reveal_strlit(" end section \"");
    reveal_strlit("@docs-as-code: start section \"");
    reveal_strlit("@docs-as-code: end section \"");
    assert("# "@ =~= seq!['#', ' ']);
    assert("\""@ =~= seq!['"']);
    assert("@docs-as-code:"@ + " start section \""@ =~= "@docs-as-code: start section \""@);
    assert("@docs-as-code:"@ + " end section \""@ =~= "@docs-as-code: end section \""@);
}

// ---------------------------------------------------------------------------
// Changes
// ---------------------------------------------------------------------------

/// The parts of a text around a range are the text
proof fn lemma_split_around(s: Seq<char>, start: nat, end: nat)
    requires
        edits::split_around_spec(s, start, end) is Ok,
    ensures
        ({
            let (before, removed, after) = edits::split_around_spec(s, start, end)->Ok_0;
            before + removed + after == s
        }),
{
    let (before, removed, after) = edits::split_around_spec(s, start, end)->Ok_0;
    let rest = bytes::from_byte(s, start as int);
    let i = bytes::char_index(s, start as int);
    assert(0 <= i <= s.len());
    let k = bytes::char_index(rest, end - start);
    assert(0 <= k <= rest.len());
    assert(removed + after =~= rest);
    assert(before + rest =~= s);
    assert(before + removed + after =~= before + (removed + after));
}

/// Adding options to a marker puts lines into the text, and changes nothing else
pub proof fn law_text_stays_around_options(
    s: Seq<char>,
    section: Option<Seq<char>>,
    added: Seq<OptionModel>,
)
    requires
        edits::extend_marker_spec(s, section, added) is Ok,
    ensures
        exists|at: int, inserted: Seq<char>|
            0 <= at <= s.len() && edits::extend_marker_spec(s, section, added)->Ok_0
                == #[trigger] (s.take(at) + inserted) + s.skip(at),
{
    let header = edits::marker_of(markers::markers_spec(s), section)->0;
    let (before, marker, after) = edits::split_around_spec(
        s,
        header.marker_from,
        header.marker_to,
    )->Ok_0;
    lemma_split_around(s, header.marker_from, header.marker_to);
    let extended = edits::extend_marker_spec(s, section, added)->Ok_0;
    let at = (before + marker).len() as int;
    assert(s.take(at) =~= before + marker);
    assert(s.skip(at) =~= after);
    let inserted = extended.subrange(at, extended.len() - after.len());
    assert(extended =~= (s.take(at) + inserted) + s.skip(at));
}

/// Rewriting a section changes the text between its markers, and nothing else
pub proof fn law_text_stays_around_a_section(s: Seq<char>, name: Seq<char>, rewrite: Rewrite)
    requires
        edits::edit_region_spec(s, Some(name), rewrite) is Ok,
    ensures
        exists|before: Seq<char>, region: Seq<char>, after: Seq<char>|
            s == #[trigger] (before + region + after) && edits::edit_region_spec(
                s,
                Some(name),
                rewrite,
            )->Ok_0 == before + edits::rewritten(rewrite, region) + after,
{
    let section = markers::section_spec(markers::markers_spec(s), name)->0;
    let (before, region, after) = edits::split_around_spec(
        s,
        section.content_from,
        section.content_to,
    )->Ok_0;
    lemma_split_around(s, section.content_from, section.content_to);
    assert(s == before + region + after);
}

/// A rewrite adds or removes the leading dashes, or makes the newlines at the end as many
/// as wanted. It leaves the rest as it is
pub proof fn law_rewritten(body: Seq<char>, had: nat, wanted: usize)
    requires
        body.len() > 0 ==> body.last() != '\n',
    ensures
        edits::rewritten(Rewrite::AddDashes, body) == seq!['-', '-', '-', '\n'] + body,
        edits::rewritten(Rewrite::RemoveDashes, seq!['-', '-', '-', '\n'] + body) == body,
        !seq!['-', '-', '-', '\n'].is_prefix_of(body) ==> edits::rewritten(
            Rewrite::RemoveDashes,
            body,
        ) == body,
        edits::rewritten(Rewrite::Newlines(wanted), body + Seq::new(had, |i: int| '\n')) == body
            + Seq::new(wanted as nat, |i: int| '\n'),
{
    let dashes = seq!['-', '-', '-', '\n'];
    reveal_strlit("---\n");
    assert("---\n"@ =~= dashes);
    assert((dashes + body).take(4) =~= dashes);
    assert((dashes + body).skip(4) =~= body);
    let s = body + Seq::new(had, |i: int| '\n');
    text::lemma_end_span_is(s, CharClass::Newline, had as int);
    assert(text::before_end_run(s, CharClass::Newline) =~= body);
    assert(lightbulb::newlines(wanted as nat) =~= Seq::new(wanted as nat, |i: int| '\n'));
}

} // verus!
