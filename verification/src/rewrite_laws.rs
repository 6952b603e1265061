//! Marked code that is rewritten in place reads back as rewritten.

use crate::bytes;
use crate::edit_laws;
use crate::edits;
use crate::edits::Rewrite;
use crate::lightbulb;
use crate::lines;
use crate::marker_laws;
use crate::markers;
use crate::markers::HeaderModel;
use crate::markers::OpenModel;
use crate::markers::ScanModel;
use crate::markers::SectionModel;
use crate::repo;
use crate::scans;
use crate::text;
use crate::text::CharClass;
use vstd::prelude::*;

verus! {

// ---------------------------------------------------------------------------
// Whole lines
// ---------------------------------------------------------------------------

/// Whether a text is whole lines
pub open spec fn is_whole(s: Seq<char>) -> bool {
    s.len() == 0 || s.last() == '\n'
}

/// The lines of a text that is whole lines
pub open spec fn lines_in(s: Seq<char>) -> Seq<Seq<char>> {
    lines::split(s, '\n').drop_last()
}

/// Some lines, each with its line end
pub open spec fn ended(list: Seq<Seq<char>>) -> Seq<char> {
    marker_laws::body(list, 0, list.len() as int)
}

/// That many blank lines
pub open spec fn blanks(count: nat) -> Seq<Seq<char>> {
    Seq::new(count, |i: int| Seq::<char>::empty())
}

pub proof fn lemma_lines_in(s: Seq<char>)
    requires
        is_whole(s),
    ensures
        ended(lines_in(s)) == s,
        forall|i: int| 0 <= i < lines_in(s).len() ==> !(#[trigger] lines_in(s)[i]).contains('\n'),
        s.len() > 0 ==> lines_in(s).len() > 0 && lines_in(s)[0] == lines::split(s, '\n')[0],
        s.len() == 0 ==> lines_in(s).len() == 0,
{
    let sep = seq!['\n'];
    lines::lemma_split(s, '\n');
    if s.len() > 0 {
        let inner = lines::split(s.drop_last(), '\n');
        lines::lemma_split(s.drop_last(), '\n');
        lines::lemma_join_split(s.drop_last(), '\n');
        assert(lines_in(s) =~= inner);
        assert(inner.subrange(0, inner.len() as int) =~= inner);
        assert(s.drop_last().push('\n') =~= s);
    }
}

proof fn lemma_lines_of_ended(list: Seq<Seq<char>>)
    requires
        forall|i: int| 0 <= i < list.len() ==> !(#[trigger] list[i]).contains('\n'),
    ensures
        lines_in(ended(list)) == list,
        is_whole(ended(list)),
{
    let sep = seq!['\n'];
    if list.len() > 0 {
        assert(list.subrange(0, list.len() as int) =~= list);
        lines::lemma_split_join(list, '\n');
        let s = ended(list);
        assert(s.drop_last() =~= lines::join(list, sep));
        assert(lines_in(s) =~= list);
    } else {
        assert(lines_in(ended(list)) =~= list);
    }
}

/// A text with other whole lines in place of some of its own
proof fn lemma_replaced_lines(list: Seq<Seq<char>>, from: int, to: int, new: Seq<Seq<char>>)
    requires
        0 <= from <= to < list.len(),
    ensures
        marker_laws::head(list, from) + ended(new) + lines::join(list.skip(to), seq!['\n'])
            == lines::join(list.take(from) + new + list.skip(to), seq!['\n']),
{
    let sep = seq!['\n'];
    let first = list.take(from);
    let last = list.skip(to);
    let tail = new + last;
    assert(first + new + last =~= first + tail);
    assert(new.subrange(0, new.len() as int) =~= new);
    if new.len() > 0 {
        lines::lemma_join_concat(new, last, sep);
        assert(lines::join(tail, sep) =~= ended(new) + lines::join(last, sep));
    } else {
        assert(tail =~= last);
        assert(lines::join(tail, sep) =~= ended(new) + lines::join(last, sep));
    }
    if from > 0 {
        lines::lemma_join_concat(first, tail, sep);
        assert(lines::join(first + tail, sep) =~= marker_laws::head(list, from) + lines::join(
            tail,
            sep,
        ));
    } else {
        assert(first + tail =~= tail);
    }
    assert(marker_laws::head(list, from) + ended(new) + lines::join(last, sep)
        =~= marker_laws::head(list, from) + (ended(new) + lines::join(last, sep)));
}

proof fn lemma_blank_line()
    ensures
        !text::occurs(Seq::<char>::empty(), markers::MARKER_PREFIX@),
        markers::continuation_spec(Seq::<char>::empty()) is None,
        !text::occurs("---"@, markers::MARKER_PREFIX@),
        markers::continuation_spec("---"@) is None,
{
    reveal_strlit("@docs-as-code:");
    reveal_strlit("---");
    let empty = Seq::<char>::empty();
    text::lemma_span(empty, CharClass::White);
    text::lemma_span("---"@, CharClass::White);
    if text::occurs("---"@, markers::MARKER_PREFIX@) {
        let i = choose|i: int| text::occurs_at("---"@, markers::MARKER_PREFIX@, i);
        assert("---"@.subrange(i, i + markers::MARKER_PREFIX@.len()).len() <= 3);
    }
    if text::occurs(empty, markers::MARKER_PREFIX@) {
        let i = choose|i: int| text::occurs_at(empty, markers::MARKER_PREFIX@, i);
        assert(empty.subrange(i, i + markers::MARKER_PREFIX@.len()).len() <= 0);
    }
    assert(!text::is_white('-'));
}

// ---------------------------------------------------------------------------
// Sections
// ---------------------------------------------------------------------------

/// Lines `new` in place of lines `from` up to `to` of `list`, where `count` lines after
/// `old_lead` of the old ones are as many after `new_lead` of the new ones, and none of
/// the others is a marker
#[verifier::opaque]
pub open spec fn keeps_markers(
    list: Seq<Seq<char>>,
    from: int,
    to: int,
    new: Seq<Seq<char>>,
    old_lead: int,
    new_lead: int,
    count: int,
) -> bool {
    &&& 0 <= old_lead
    &&& 0 <= new_lead
    &&& 0 <= count
    &&& from + old_lead + count <= to
    &&& new_lead + count <= new.len()
    &&& forall|k: int|
        from + old_lead <= k < from + old_lead + count ==> #[trigger] list[k] == new[k - from
            - old_lead + new_lead]
    &&& forall|k: int|
        from <= k < from + old_lead || from + old_lead + count <= k < to ==> !text::occurs(
            #[trigger] list[k],
            markers::MARKER_PREFIX@,
        )
    &&& forall|k: int|
        0 <= k < new_lead || new_lead + count <= k < new.len() ==> !text::occurs(
            #[trigger] new[k],
            markers::MARKER_PREFIX@,
        )
    &&& from + old_lead + count < to ==> markers::continuation_spec(
        list[from + old_lead + count],
    ) is None
    &&& new_lead + count < new.len() ==> markers::continuation_spec(new[new_lead + count]) is None
    &&& new.len() > 0 ==> !markers::continues(new, 0)
}

pub proof fn lemma_end_line_stops(list: Seq<Seq<char>>, name: Seq<char>, e: int)
    requires
        scans::is_end(list, name, e),
    ensures
        !markers::continues(list, e),
{
    text::lemma_find(list[e], markers::MARKER_PREFIX@);
    let i = text::find_spec(list[e], markers::MARKER_PREFIX@)->0;
    assert(text::occurs_at(list[e], markers::MARKER_PREFIX@, i));
}

/// What is known of a section that was closed
pub proof fn lemma_section_origin(list: Seq<Seq<char>>, total: nat, section: SectionModel)
    requires
        scans::closed(list, total, section),
    ensures
        ({
            let l = section.header.last_line as int;
            let e = section.end_line - 1;
            let open = scans::open_part(section);
            let found = scans::scan_before(list, total, l);
            &&& 0 <= l <= e < list.len()
            &&& scans::is_end(list, section.name, e)
            &&& !markers::continues(list, l)
            &&& !markers::continues(list, e)
            &&& scans::scan_before(list, total, e) == edit_laws::scan_to(list, total, l, e, found)
            &&& scans::has_open(scans::scan_before(list, total, e), open)
            &&& scans::alike(found, open, found, open)
            &&& section.content_from == section.header.marker_to
            &&& section.content_to == markers::line_start(list, e)
        }),
{
    reveal(scans::closed);
    reveal(scans::opened);
    let e = section.end_line - 1;
    let found = scans::scan_before(list, total, section.header.last_line as int);
    lemma_end_line_stops(list, section.name, e);
    assert(scans::scan_before(list, total, e) == edit_laws::scan_to(
        list,
        total,
        section.header.last_line as int,
        e,
        found,
    ));
    markers::lemma_index_of(markers::open_names(found.open), section.name);
}

/// Scanning lines of which only some in the middle may be markers
proof fn lemma_scan_middle(
    list: Seq<Seq<char>>,
    total: nat,
    from: int,
    lead: int,
    count: int,
    to: int,
    found: ScanModel,
)
    requires
        0 <= from,
        0 <= lead,
        0 <= count,
        from + lead + count <= to <= list.len(),
        !markers::continues(list, from + lead + count),
        forall|k: int|
            from <= k < from + lead || from + lead + count <= k < to ==> !text::occurs(
                #[trigger] list[k],
                markers::MARKER_PREFIX@,
            ),
    ensures
        ({
            let stop = from + lead + count;
            let after = edit_laws::scan_to(list, total, from + lead, stop, found);
            &&& edit_laws::scan_to(list, total, from, to, found) == after
            &&& markers::scan_spec(list, total, from, found) == markers::scan_spec(
                list,
                total,
                to,
                after,
            )
        }),
{
    let stop = from + lead + count;
    let after = edit_laws::scan_to(list, total, from + lead, stop, found);
    scans::lemma_skip_to(list, total, from, from + lead, to, found);
    scans::lemma_split_at(list, total, from + lead, stop, to, found);
    scans::lemma_skip_to(list, total, stop, to, to, after);
    edit_laws::lemma_scan_skips(list, total, from, from + lead, found);
    edit_laws::lemma_scan_split(list, total, from + lead, stop, found);
    edit_laws::lemma_scan_skips(list, total, stop, to, after);
}

/// Scanning the lines that others take the place of
proof fn lemma_old_lines(
    list: Seq<Seq<char>>,
    total: nat,
    from: int,
    to: int,
    new: Seq<Seq<char>>,
    old_lead: int,
    new_lead: int,
    count: int,
    found: ScanModel,
)
    requires
        0 <= from <= to < list.len(),
        !markers::continues(list, to),
        keeps_markers(list, from, to, new, old_lead, new_lead, count),
    ensures
        !markers::continues(list, from + old_lead + count),
        edit_laws::scan_to(list, total, from, to, found) == edit_laws::scan_to(
            list,
            total,
            from + old_lead,
            from + old_lead + count,
            found,
        ),
{
    reveal(keeps_markers);
    lemma_scan_middle(list, total, from, old_lead, count, to, found);
}

/// Scanning lines that take the place of others
proof fn lemma_new_lines(
    list: Seq<Seq<char>>,
    from: int,
    to: int,
    new: Seq<Seq<char>>,
    old_lead: int,
    new_lead: int,
    count: int,
    total: nat,
    found: ScanModel,
)
    requires
        0 <= from <= to < list.len(),
        !markers::continues(list, to),
        keeps_markers(list, from, to, new, old_lead, new_lead, count),
    ensures
        ({
            let all = list.take(from) + new + list.skip(to);
            let end = from + new.len();
            let stop = from + new_lead + count;
            &&& !markers::continues(all, from)
            &&& !markers::continues(all, stop)
            &&& markers::scan_spec(all, total, from, found) == markers::scan_spec(
                all,
                total,
                end,
                edit_laws::scan_to(all, total, from + new_lead, stop, found),
            )
        }),
{
    reveal(keeps_markers);
    let all = list.take(from) + new + list.skip(to);
    let end = from + new.len();
    let stop = from + new_lead + count;
    assert(all[end] == list[to]);
    assert(!markers::continues(all, from)) by {
        if new.len() > 0 {
            assert(all[from] == new[0]);
            assert(!markers::continues(new, 0));
        }
    }
    assert(!markers::continues(all, stop)) by {
        if stop < end {
            assert(all[stop] == new[stop - from]);
        }
    }
    assert forall|k: int|
        from <= k < from + new_lead || from + new_lead + count <= k < end implies !text::occurs(
        #[trigger] all[k],
        markers::MARKER_PREFIX@,
    ) by {
        assert(all[k] == new[k - from]);
    }
    lemma_scan_middle(all, total, from, new_lead, count, end, found);
}

/// Scanning the lines that stay, where they were and where they are
proof fn lemma_kept_lines(
    list: Seq<Seq<char>>,
    total: nat,
    from: int,
    to: int,
    new: Seq<Seq<char>>,
    old_lead: int,
    new_lead: int,
    count: int,
    all_total: nat,
    found: ScanModel,
    open: OpenModel,
)
    requires
        0 <= from <= to < list.len(),
        keeps_markers(list, from, to, new, old_lead, new_lead, count),
        scans::alike(found, open, found, open),
        !markers::continues(list, from + old_lead + count),
        !markers::continues(
            list.take(from) + new + list.skip(to),
            from + new_lead + count,
        ),
    ensures
        ({
            let all = list.take(from) + new + list.skip(to);
            let old_stop = from + old_lead + count;
            let new_stop = from + new_lead + count;
            scans::alike(
                edit_laws::scan_to(list, total, from + old_lead, old_stop, found),
                open,
                edit_laws::scan_to(all, all_total, from + new_lead, new_stop, found),
                open,
            )
        }),
{
    reveal(keeps_markers);
    let all = list.take(from) + new + list.skip(to);
    let old_stop = from + old_lead + count;
    let d = new_lead - old_lead;
    assert forall|k: int| from + old_lead <= k < old_stop implies #[trigger] list[k] == all[k
        + d] by {
        assert(all[k + d] == new[k + d - from]);
    }
    scans::lemma_moved_scan(
        list,
        total,
        found,
        open,
        all,
        all_total,
        found,
        open,
        from + old_lead,
        old_stop,
        d,
    );
}

/// A section with other lines between its markers
#[verifier::spinoff_prover]
#[verifier::rlimit(50)]
proof fn lemma_replaced_section(
    list: Seq<Seq<char>>,
    section: SectionModel,
    new: Seq<Seq<char>>,
    old_lead: int,
    new_lead: int,
    count: int,
)
    requires
        scans::closed(list, scans::length_of(list), section),
        keeps_markers(
            list,
            section.header.last_line as int,
            section.end_line - 1,
            new,
            old_lead,
            new_lead,
            count,
        ),
    ensures
        ({
            let all = list.take(section.header.last_line as int) + new + list.skip(
                section.end_line - 1,
            );
            let e = section.header.last_line + new.len();
            markers::section_spec(
                markers::scan_spec(
                    all,
                    scans::length_of(all),
                    0,
                    edit_laws::empty_scan(),
                ).markers,
                section.name,
            ) == Some(
                SectionModel {
                    content_to: markers::line_start(all, e as int),
                    end_line: (e + 1) as nat,
                    ..section
                },
            )
        }),
{
    let total = scans::length_of(list);
    let l = section.header.last_line as int;
    let e = section.end_line - 1;
    let open = scans::open_part(section);
    let all = list.take(l) + new + list.skip(e);
    let all_total = scans::length_of(all);
    let end = l + new.len();
    let empty = edit_laws::empty_scan();
    lemma_section_origin(list, total, section);
    let found = scans::scan_before(list, total, l);
    assert(all[end] == list[e]);
    assert(scans::is_end(all, section.name, end));
    // The section's old lines, its new ones, and those that are both
    lemma_old_lines(list, total, l, e, new, old_lead, new_lead, count, found);
    lemma_new_lines(list, l, e, new, old_lead, new_lead, count, all_total, found);
    lemma_kept_lines(
        list,
        total,
        l,
        e,
        new,
        old_lead,
        new_lead,
        count,
        all_total,
        found,
        open,
    );
    // The lines before the section's
    assert(all.take(l) =~= list.take(l));
    scans::lemma_same_scan(list, all, 0, l, empty);
    edit_laws::lemma_scan_split(all, all_total, 0, l, empty);
    // The section is still open after them
    let new_found = edit_laws::scan_to(all, all_total, l + new_lead, l + new_lead + count, found);
    scans::lemma_closes(all, all_total, end, new_found, open);
}

// ---------------------------------------------------------------------------
// What a rewrite keeps
// ---------------------------------------------------------------------------

proof fn lemma_dashes_first(rest: Seq<char>)
    ensures
        lines::split("---\n"@ + rest, '\n') == seq!["---"@] + lines::split(rest, '\n'),
        lines_in("---\n"@ + rest) == seq!["---"@] + lines_in(rest),
{
    reveal_strlit("---\n");
    reveal_strlit("---");
    assert("---\n"@ + rest =~= "---"@.push('\n') + rest);
    lines::lemma_split_concat("---"@, '\n', rest);
    lines::lemma_split_single("---"@, '\n');
    lines::lemma_split(rest, '\n');
    assert(lines_in("---\n"@ + rest) =~= seq!["---"@] + lines_in(rest));
}

proof fn lemma_blanks_last(s: Seq<char>, count: nat)
    ensures
        lines::split(s + lightbulb::newlines(count), '\n') == lines::split(s, '\n') + blanks(count),
    decreases count,
{
    let all = s + lightbulb::newlines(count);
    if count == 0 {
        assert(all =~= s);
        assert(lines::split(s, '\n') + blanks(0) =~= lines::split(s, '\n'));
    } else {
        lemma_blanks_last(s, (count - 1) as nat);
        assert(all.drop_last() =~= s + lightbulb::newlines((count - 1) as nat));
        assert(all.last() == '\n');
        assert(lines::split(all, '\n') =~= lines::split(s, '\n') + blanks(count));
    }
}

/// Whether a text starts like more options of the marker before it
pub open spec fn starts_like_options(s: Seq<char>) -> bool {
    markers::continues(lines::split(s, '\n'), 0)
}

/// Where the lines that a rewrite keeps are: after how many old ones, after how many new
/// ones, and how many they are
spec fn kept_lines(rewrite: Rewrite, region: Seq<char>) -> (int, int, int) {
    let count = lines_in(region).len() as int;
    match rewrite {
        Rewrite::RemoveDashes => if "---\n"@.is_prefix_of(region) {
            (1, 0, count - 1)
        } else {
            (0, 0, count)
        },
        Rewrite::AddDashes => (0, 1, count),
        Rewrite::Newlines(_) => {
            let body = text::before_end_run(region, CharClass::Newline);
            (
                0,
                0,
                if body.len() == 0 {
                    0
                } else {
                    lines::split(body, '\n').len() as int
                },
            )
        },
    }
}

proof fn lemma_newlines_rewrite(region: Seq<char>, count: usize)
    requires
        is_whole(region),
        is_whole(edits::rewritten(Rewrite::Newlines(count), region)),
    ensures
        ({
            let new = lines_in(edits::rewritten(Rewrite::Newlines(count), region));
            let old = lines_in(region);
            let kept = kept_lines(Rewrite::Newlines(count), region).2;
            &&& 0 <= kept <= old.len()
            &&& kept <= new.len()
            &&& forall|k: int| 0 <= k < kept ==> #[trigger] old[k] == new[k]
            &&& forall|k: int| kept <= k < old.len() ==> (#[trigger] old[k]).len() == 0
            &&& forall|k: int| kept <= k < new.len() ==> (#[trigger] new[k]).len() == 0
        }),
{
    let had = lightbulb::newlines_at_end(region);
    let body = text::before_end_run(region, CharClass::Newline);
    let changed = edits::rewritten(Rewrite::Newlines(count), region);
    text::lemma_end_span(region, CharClass::Newline);
    assert(region =~= body + lightbulb::newlines(had)) by {
        assert forall|i: int| body.len() <= i < region.len() implies region[i] == '\n' by {
            assert(CharClass::Newline.has(region[i]));
        }
    }
    lemma_blanks_last(body, had);
    lemma_blanks_last(body, count as nat);
    lines::lemma_split(body, '\n');
    let pieces = lines::split(body, '\n');
    let old = lines_in(region);
    let new = lines_in(changed);
    assert(changed == body + lightbulb::newlines(count as nat));
    if body.len() == 0 {
        assert(pieces =~= seq![Seq::<char>::empty()]);
        assert(forall|k: int| 0 <= k < (pieces + blanks(had)).len() ==> (#[trigger] (pieces + blanks(
            had,
        ))[k]).len() == 0);
        assert(forall|k: int| 0 <= k < (pieces + blanks(count as nat)).len() ==> (#[trigger] (pieces
            + blanks(count as nat))[k]).len() == 0);
    } else {
        // The text ends with a line feed, and its body doesn't
        assert(had > 0) by {
            if had == 0 {
                assert(region =~= body);
                assert(CharClass::Newline.has(region.last()));
            }
        }
        assert(count > 0) by {
            if count == 0 {
                assert(changed =~= body);
                assert(body.last() == region[body.len() - 1]);
                assert(CharClass::Newline.has(body.last()));
            }
        }
    }
}

proof fn lemma_removed_dashes(part: Seq<Seq<char>>, new: Seq<Seq<char>>)
    requires
        part == seq!["---"@] + new,
        new.len() > 0 ==> !markers::continues(new, 0),
    ensures
        keeps_markers(part, 0, part.len() as int, new, 1, 0, new.len() as int),
{
    reveal(keeps_markers);
    lemma_blank_line();
    assert(part[0] == "---"@);
}

proof fn lemma_added_dashes(part: Seq<Seq<char>>, new: Seq<Seq<char>>)
    requires
        new == seq!["---"@] + part,
    ensures
        keeps_markers(part, 0, part.len() as int, new, 0, 1, part.len() as int),
{
    reveal(keeps_markers);
    lemma_blank_line();
    assert(new[0] == "---"@);
}

proof fn lemma_changed_blanks(part: Seq<Seq<char>>, new: Seq<Seq<char>>, kept: int)
    requires
        0 <= kept <= part.len(),
        kept <= new.len(),
        forall|k: int| 0 <= k < kept ==> #[trigger] part[k] == new[k],
        forall|k: int| kept <= k < part.len() ==> (#[trigger] part[k]).len() == 0,
        forall|k: int| kept <= k < new.len() ==> (#[trigger] new[k]).len() == 0,
        new.len() > 0 ==> !markers::continues(new, 0),
    ensures
        keeps_markers(part, 0, part.len() as int, new, 0, 0, kept),
{
    reveal(keeps_markers);
    lemma_blank_line();
    assert forall|k: int| kept <= k < part.len() implies !text::occurs(
        #[trigger] part[k],
        markers::MARKER_PREFIX@,
    ) && markers::continuation_spec(part[k]) is None by {
        assert(part[k] =~= Seq::<char>::empty());
    }
    assert forall|k: int| kept <= k < new.len() implies !text::occurs(
        #[trigger] new[k],
        markers::MARKER_PREFIX@,
    ) && markers::continuation_spec(new[k]) is None by {
        assert(new[k] =~= Seq::<char>::empty());
    }
}

/// What holds of lines alone holds of them among others
proof fn lemma_keeps_among(
    list: Seq<Seq<char>>,
    from: int,
    to: int,
    new: Seq<Seq<char>>,
    old_lead: int,
    new_lead: int,
    count: int,
)
    requires
        0 <= from <= to <= list.len(),
        keeps_markers(list.subrange(from, to), 0, to - from, new, old_lead, new_lead, count),
    ensures
        keeps_markers(list, from, to, new, old_lead, new_lead, count),
{
    reveal(keeps_markers);
    let part = list.subrange(from, to);
    assert forall|k: int| from <= k < to implies #[trigger] list[k] == part[k - from] by {}
    assert forall|k: int| from + old_lead <= k < from + old_lead + count implies #[trigger] list[k]
        == new[k - from - old_lead + new_lead] by {
        assert(part[k - from] == new[k - from - old_lead + new_lead]);
    }
    assert forall|k: int|
        from <= k < from + old_lead || from + old_lead + count <= k < to implies !text::occurs(
        #[trigger] list[k],
        markers::MARKER_PREFIX@,
    ) by {
        assert(!text::occurs(part[k - from], markers::MARKER_PREFIX@));
    }
}

/// A rewrite keeps the lines that may be markers
proof fn lemma_rewrite_keeps(list: Seq<Seq<char>>, from: int, to: int, rewrite: Rewrite)
    requires
        0 <= from <= to <= list.len(),
        forall|i: int| 0 <= i < list.len() ==> !(#[trigger] list[i]).contains('\n'),
        ({
            let changed = edits::rewritten(rewrite, marker_laws::body(list, from, to));
            is_whole(changed) && !starts_like_options(changed)
        }),
    ensures
        ({
            let region = marker_laws::body(list, from, to);
            let (old_lead, new_lead, count) = kept_lines(rewrite, region);
            keeps_markers(
                list,
                from,
                to,
                lines_in(edits::rewritten(rewrite, region)),
                old_lead,
                new_lead,
                count,
            )
        }),
{
    let region = marker_laws::body(list, from, to);
    let changed = edits::rewritten(rewrite, region);
    let part = list.subrange(from, to);
    let new = lines_in(changed);
    assert(part.subrange(0, part.len() as int) =~= part);
    assert(ended(part) == region);
    assert forall|i: int| 0 <= i < part.len() implies !(#[trigger] part[i]).contains('\n') by {
        assert(part[i] == list[from + i]);
    }
    lemma_lines_of_ended(part);
    lemma_lines_in(changed);
    assert(new.len() > 0 ==> !markers::continues(new, 0)) by {
        lines::lemma_split(changed, '\n');
    }
    match rewrite {
        Rewrite::RemoveDashes => {
            reveal_strlit("---\n");
            if "---\n"@.is_prefix_of(region) {
                assert(region =~= "---\n"@ + changed);
                lemma_dashes_first(changed);
                lemma_removed_dashes(part, new);
            } else {
                assert(new =~= part);
                lemma_changed_blanks(part, new, part.len() as int);
            }
        },
        Rewrite::AddDashes => {
            lemma_dashes_first(region);
            lemma_added_dashes(part, new);
        },
        Rewrite::Newlines(count) => {
            lemma_newlines_rewrite(region, count);
            let (_, _, kept) = kept_lines(rewrite, region);
            lemma_changed_blanks(part, new, kept);
        },
    }
    let (old_lead, new_lead, count) = kept_lines(rewrite, region);
    lemma_keeps_among(list, from, to, new, old_lead, new_lead, count);
}

/// What a section of a text marks, and the text around it
#[verifier::spinoff_prover]
#[verifier::rlimit(50)]
proof fn lemma_found_section(s: Seq<char>, name: Seq<char>)
    requires
        markers::section_spec(markers::markers_spec(s), name) is Some,
    ensures
        ({
            let list = lines::split(s, '\n');
            let section = markers::section_spec(markers::markers_spec(s), name)->0;
            let l = section.header.last_line as int;
            let e = section.end_line - 1;
            let region = marker_laws::body(list, l, e);
            let before = marker_laws::head(list, l);
            let rest = lines::join(list.skip(e), seq!['\n']);
            &&& section.name == name
            &&& scans::closed(list, scans::length_of(list), section)
            &&& marker_laws::section_in(list, bytes::byte_len(s), section)
            &&& 0 <= l <= e < list.len()
            &&& repo::marked_section_spec(s, section) matches Ok(raw) && raw.raw == region
            &&& is_whole(region)
            &&& edits::split_around_spec(s, section.content_from, section.content_to) == Ok::<
                _,
                Seq<char>,
            >((before, region, rest))
            &&& before + region + rest == s
        }),
{
    let list = lines::split(s, '\n');
    let found = markers::markers_spec(s);
    let names = markers::section_names(found.sections);
    markers::lemma_index_of(names, name);
    let at = markers::index_of(names, name)->0;
    let section = found.sections[at];
    assert(names[at] == section.name);
    lines::lemma_split(s, '\n');
    lines::lemma_join_split(s, '\n');
    assert(scans::closed(list, scans::length_of(list), section)) by {
        scans::lemma_traced(s);
    }
    assert(marker_laws::section_in(list, bytes::byte_len(s), section)) by {
        marker_laws::law_markers_are_whole_lines(s);
    }
    let l = section.header.last_line as int;
    let e = section.end_line - 1;
    assert(repo::marked_section_spec(s, section) matches Ok(raw) && raw.raw == marker_laws::body(
        list,
        l,
        e,
    )) by {
        repo::law_marked_code_is_in_the_text(s);
    }
    lemma_section_parts(s, section);
    let part = list.subrange(l, e);
    lemma_replaced_lines(list, l, e, part);
    assert(part.subrange(0, part.len() as int) =~= part);
    assert(list.take(l) + part + list.skip(e) =~= list);
}

/// The lines of a text with a section rewritten, and where the section is then
#[verifier::spinoff_prover]
#[verifier::rlimit(50)]
proof fn lemma_edited_lines(s: Seq<char>, name: Seq<char>, rewrite: Rewrite, section: SectionModel)
    requires
        markers::section_spec(markers::markers_spec(s), name) == Some(section),
        ({
            let changed = edits::rewritten(
                rewrite,
                marker_laws::body(
                    lines::split(s, '\n'),
                    section.header.last_line as int,
                    section.end_line - 1,
                ),
            );
            is_whole(changed) && !starts_like_options(changed)
        }),
    ensures
        ({
            let list = lines::split(s, '\n');
            let l = section.header.last_line as int;
            let e = section.end_line - 1;
            let changed = edits::rewritten(rewrite, marker_laws::body(list, l, e));
            let new = lines_in(changed);
            let all = list.take(l) + new + list.skip(e);
            &&& edits::edit_region_spec(s, Some(name), rewrite) matches Ok(edited)
                && lines::split(edited, '\n') == all && markers::section_spec(
                markers::markers_spec(edited),
                name,
            ) == Some(
                SectionModel {
                    content_to: markers::line_start(all, l + new.len()),
                    end_line: (l + new.len() + 1) as nat,
                    ..section
                },
            )
        }),
{
    let list = lines::split(s, '\n');
    lemma_found_section(s, name);
    lines::lemma_split(s, '\n');
    lines::lemma_join_split(s, '\n');
    let l = section.header.last_line as int;
    let e = section.end_line - 1;
    let region = marker_laws::body(list, l, e);
    let changed = edits::rewritten(rewrite, region);
    let new = lines_in(changed);
    let (old_lead, new_lead, count) = kept_lines(rewrite, region);
    lemma_rewrite_keeps(list, l, e, rewrite);
    lemma_replaced_section(list, section, new, old_lead, new_lead, count);
    let all = list.take(l) + new + list.skip(e);
    lemma_lines_in(changed);
    let edited = edits::edit_region_spec(s, Some(name), rewrite)->Ok_0;
    assert(edited == marker_laws::head(list, l) + changed + lines::join(list.skip(e), seq!['\n']));
    lemma_replaced_lines(list, l, e, new);
    assert(edited == lines::join(all, seq!['\n']));
    assert forall|i: int| 0 <= i < all.len() implies !(#[trigger] all[i]).contains('\n') by {
        if i < l {
            assert(all[i] == list[i]);
        } else if i < l + new.len() {
            assert(all[i] == new[i - l]);
        } else {
            assert(all[i] == list[i - l - new.len() + e]);
        }
    }
    lines::lemma_split_join(all, '\n');
}

/// A section whose marked lines are rewritten keeps its options, its marked lines are
/// the rewritten ones, and the text before and after them is as it was, as long as
/// those are whole lines that don't start like options
#[verifier::spinoff_prover]
#[verifier::rlimit(40)]
pub proof fn law_edited_section_reads_back(s: Seq<char>, name: Seq<char>, rewrite: Rewrite)
    requires
        markers::section_spec(markers::markers_spec(s), name) matches Some(section) && (
        repo::marked_section_spec(s, section) matches Ok(raw) && {
            let changed = edits::rewritten(rewrite, raw.raw);
            is_whole(changed) && !starts_like_options(changed)
        }),
    ensures
        ({
            let section = markers::section_spec(markers::markers_spec(s), name)->0;
            let raw = repo::marked_section_spec(s, section)->Ok_0;
            edits::edit_region_spec(s, Some(name), rewrite) matches Ok(edited) && (
            markers::section_spec(markers::markers_spec(edited), name) matches Some(after)
                && after.header.options == section.header.options && (repo::marked_section_spec(
                edited,
                after,
            ) matches Ok(kept) && kept.raw == edits::rewritten(rewrite, raw.raw)) && (
            edits::split_around_spec(s, section.content_from, section.content_to) matches Ok(
                (before, region, rest),
            ) && edits::split_around_spec(edited, after.content_from, after.content_to) == Ok::<
                _,
                Seq<char>,
            >((before, edits::rewritten(rewrite, region), rest))))
        }),
{
    let list = lines::split(s, '\n');
    let section = markers::section_spec(markers::markers_spec(s), name)->0;
    let l = section.header.last_line as int;
    let e = section.end_line - 1;
    lemma_found_section(s, name);
    lemma_edited_lines(s, name, rewrite, section);
    let edited = edits::edit_region_spec(s, Some(name), rewrite)->Ok_0;
    lemma_found_section(edited, name);
    let changed = edits::rewritten(rewrite, marker_laws::body(list, l, e));
    let new = lines_in(changed);
    let all = list.take(l) + new + list.skip(e);
    lemma_lines_in(changed);
    assert(all.subrange(l, l + new.len()) =~= new);
    assert(new.subrange(0, new.len() as int) =~= new);
    assert(marker_laws::body(all, l, l + new.len()) == changed);
    assert(all.take(l) =~= list.take(l));
    assert(marker_laws::head(all, l) == marker_laws::head(list, l));
    assert(all.skip(l + new.len()) =~= list.skip(e));
}

proof fn lemma_dashed_region(region: Seq<char>)
    requires
        is_whole(region),
    ensures
        ({
            let changed = edits::rewritten(Rewrite::AddDashes, region);
            &&& is_whole(changed)
            &&& !starts_like_options(changed)
            &&& edits::rewritten(Rewrite::RemoveDashes, changed) == region
        }),
{
    let changed = "---\n"@ + region;
    reveal_strlit("---\n");
    assert(changed.last() == '\n');
    lemma_dashes_first(region);
    lemma_blank_line();
    assert(lines::split(changed, '\n')[0] == "---"@);
    assert("---\n"@.is_prefix_of(changed));
    assert(changed.skip("---\n"@.len() as int) =~= region);
}

/// Adding a leading `---` to a section and removing it again gives the whole text back
pub proof fn law_added_dashes_come_off(s: Seq<char>, name: Seq<char>)
    requires
        markers::section_spec(markers::markers_spec(s), name) is Some,
    ensures
        edits::edit_region_spec(s, Some(name), Rewrite::AddDashes) matches Ok(added)
            && edits::edit_region_spec(added, Some(name), Rewrite::RemoveDashes) == Ok::<
            _,
            Seq<char>,
        >(s),
{
    lemma_found_section(s, name);
    let section = markers::section_spec(markers::markers_spec(s), name)->0;
    lemma_dashed_region(
        marker_laws::body(
            lines::split(s, '\n'),
            section.header.last_line as int,
            section.end_line - 1,
        ),
    );
    law_edited_section_reads_back(s, name, Rewrite::AddDashes);
}

/// A text around the marked lines of a section
proof fn lemma_section_parts(s: Seq<char>, section: SectionModel)
    requires
        marker_laws::section_in(lines::split(s, '\n'), bytes::byte_len(s), section),
    ensures
        ({
            let list = lines::split(s, '\n');
            edits::split_around_spec(s, section.content_from, section.content_to) == Ok::<
                _,
                Seq<char>,
            >(
                (
                    marker_laws::head(list, section.header.last_line as int),
                    marker_laws::body(
                        list,
                        section.header.last_line as int,
                        section.end_line - 1,
                    ),
                    lines::join(list.skip(section.end_line - 1), seq!['\n']),
                ),
            )
        }),
{
    let list = lines::split(s, '\n');
    let l = section.header.last_line as int;
    let e = section.end_line - 1;
    lines::lemma_join_split(s, '\n');
    lines::lemma_split(s, '\n');
    lemma_text_parts(list, l, e);
}

/// A text split before two of its lines
proof fn lemma_text_parts(list: Seq<Seq<char>>, from: int, to: int)
    requires
        0 <= from <= to < list.len(),
    ensures
        edits::split_around_spec(
            lines::join(list, seq!['\n']),
            markers::line_start(list, from),
            markers::line_start(list, to),
        ) == Ok::<_, Seq<char>>(
            (
                marker_laws::head(list, from),
                marker_laws::body(list, from, to),
                lines::join(list.skip(to), seq!['\n']),
            ),
        ),
{
    let s = lines::join(list, seq!['\n']);
    let start = markers::line_start(list, from);
    let end = markers::line_start(list, to);
    let before = marker_laws::head(list, from);
    let region = marker_laws::body(list, from, to);
    let after = lines::join(list.skip(to), seq!['\n']);
    marker_laws::lemma_head(list, from);
    marker_laws::lemma_head(list, to);
    marker_laws::lemma_body(list, from, to);
    bytes::lemma_boundary(s, start as int);
    bytes::lemma_boundary(s, end as int);
    let rest = bytes::from_byte(s, start as int);
    assert(s =~= before + rest);
    assert(s =~= marker_laws::head(list, to) + after);
    assert(rest =~= region + after) by {
        assert(before + rest =~= before + (region + after));
        assert(rest =~= (before + rest).skip(before.len() as int));
        assert(region + after =~= (before + (region + after)).skip(before.len() as int));
    }
    bytes::lemma_byte_len_concat(before, region);
    assert(bytes::byte_len(before) == start);
    assert(bytes::byte_len(marker_laws::head(list, to)) == end);
    bytes::lemma_boundary_concat(region, after);
}

// ---------------------------------------------------------------------------
// Files
// ---------------------------------------------------------------------------

/// A text without its file marker
pub open spec fn unmarked(s: Seq<char>, header: HeaderModel) -> Seq<char> {
    bytes::before_byte(s, header.marker_from as int) + bytes::from_byte(
        s,
        header.marker_to as int,
    )
}

proof fn lemma_occurs_inside(before: Seq<char>, s: Seq<char>, after: Seq<char>, part: Seq<char>)
    requires
        text::occurs(s, part),
    ensures
        text::occurs(before + s + after, part),
{
    let i = choose|i: int| text::occurs_at(s, part, i);
    let all = before + s + after;
    assert(all.subrange(before.len() + i, before.len() + i + part.len()) =~= s.subrange(
        i,
        i + part.len(),
    ));
    assert(text::occurs_at(all, part, before.len() + i));
}

/// A text without markers has no line with one
proof fn lemma_no_marker_lines(list: Seq<Seq<char>>, i: int)
    requires
        0 <= i < list.len(),
        !text::occurs(lines::join(list, seq!['\n']), markers::MARKER_PREFIX@),
    ensures
        !text::occurs(list[i], markers::MARKER_PREFIX@),
{
    let sep = seq!['\n'];
    if text::occurs(list[i], markers::MARKER_PREFIX@) {
        let head = if i == 0 {
            Seq::<char>::empty()
        } else {
            lines::join(list.take(i), sep) + sep
        };
        let tail = if i + 1 == list.len() {
            Seq::<char>::empty()
        } else {
            sep + lines::join(list.skip(i + 1), sep)
        };
        let rest = list.skip(i);
        assert(list.take(i) + rest =~= list);
        if i > 0 {
            lines::lemma_join_concat(list.take(i), rest, sep);
        } else {
            assert(rest =~= list);
        }
        assert(seq![list[i]] + list.skip(i + 1) =~= rest);
        if i + 1 < list.len() {
            lines::lemma_join_concat(seq![list[i]], list.skip(i + 1), sep);
        } else {
            assert(rest =~= seq![list[i]]);
        }
        assert(lines::join(seq![list[i]], sep) == list[i]);
        assert(lines::join(list, sep) =~= head + list[i] + tail);
        lemma_occurs_inside(head, list[i], tail, markers::MARKER_PREFIX@);
    }
}

pub proof fn lemma_split_has_no_markers(s: Seq<char>)
    requires
        !text::occurs(s, markers::MARKER_PREFIX@),
    ensures
        forall|i: int|
            0 <= i < lines::split(s, '\n').len() ==> !text::occurs(
                #[trigger] lines::split(s, '\n')[i],
                markers::MARKER_PREFIX@,
            ),
{
    lines::lemma_join_split(s, '\n');
    assert forall|i: int| 0 <= i < lines::split(s, '\n').len() implies !text::occurs(
        #[trigger] lines::split(s, '\n')[i],
        markers::MARKER_PREFIX@,
    ) by {
        lemma_no_marker_lines(lines::split(s, '\n'), i);
    }
}

/// A rewrite makes no markers
pub proof fn lemma_rewrite_makes_no_markers(rewrite: Rewrite, s: Seq<char>)
    requires
        !text::occurs(s, markers::MARKER_PREFIX@),
    ensures
        !text::occurs(edits::rewritten(rewrite, s), markers::MARKER_PREFIX@),
{
    let part = markers::MARKER_PREFIX@;
    let changed = edits::rewritten(rewrite, s);
    reveal_strlit("@docs-as-code:");
    reveal_strlit("---\n");
    if text::occurs(changed, part) {
        let i = choose|i: int| text::occurs_at(changed, part, i);
        assert(changed.subrange(i, i + part.len())[0] == changed[i]);
        assert(changed.subrange(i, i + part.len())[part.len() - 1] == changed[i + part.len() - 1]);
        match rewrite {
            Rewrite::RemoveDashes => {
                if "---\n"@.is_prefix_of(s) {
                    assert(s.subrange(i + 4, i + 4 + part.len()) =~= changed.subrange(
                        i,
                        i + part.len(),
                    ));
                    assert(text::occurs_at(s, part, i + 4));
                }
            },
            Rewrite::AddDashes => {
                assert(changed[i] == '@');
                assert(i >= 4);
                assert(s.subrange(i - 4, i - 4 + part.len()) =~= changed.subrange(
                    i,
                    i + part.len(),
                ));
                assert(text::occurs_at(s, part, i - 4));
            },
            Rewrite::Newlines(count) => {
                let body = text::before_end_run(s, CharClass::Newline);
                text::lemma_end_span(s, CharClass::Newline);
                assert(changed[i + part.len() - 1] == ':');
                assert(i + part.len() <= body.len());
                assert(s.subrange(i, i + part.len()) =~= changed.subrange(i, i + part.len()));
                assert(text::occurs_at(s, part, i));
            },
        }
    }
}

/// What is left of a text's lines around its file marker
pub proof fn lemma_file_parts(s: Seq<char>, header: HeaderModel)
    requires
        marker_laws::header_in(lines::split(s, '\n'), bytes::byte_len(s), header),
    ensures
        ({
            let list = lines::split(s, '\n');
            let f = header.first_line - 1;
            let last = header.last_line as int;
            let marker = list.subrange(f, last);
            let before = marker_laws::head(list, f);
            let after = if last < list.len() {
                lines::join(list.skip(last), seq!['\n'])
            } else {
                Seq::empty()
            };
            &&& unmarked(s, header) == before + after
            &&& edits::split_around_spec(s, header.marker_from, header.marker_to) == Ok::<
                _,
                Seq<char>,
            >(
                (
                    before,
                    if last < list.len() {
                        ended(marker)
                    } else {
                        lines::join(marker, seq!['\n'])
                    },
                    after,
                ),
            )
        }),
{
    let list = lines::split(s, '\n');
    let f = header.first_line - 1;
    let last = header.last_line as int;
    let marker = list.subrange(f, last);
    lines::lemma_join_split(s, '\n');
    lines::lemma_split(s, '\n');
    marker_laws::law_header_in_text(s, header);
    assert(marker.subrange(0, marker.len() as int) =~= marker);
    if last < list.len() {
        lemma_text_parts(list, f, last);
        assert(ended(marker) == marker_laws::body(list, f, last));
    } else {
        let before = marker_laws::head(list, f);
        marker_laws::lemma_head(list, f);
        assert(list.skip(f) =~= marker);
        let rest = bytes::from_byte(s, header.marker_from as int);
        bytes::lemma_boundary(s, header.marker_from as int);
        bytes::lemma_byte_len_concat(before, rest);
        bytes::lemma_boundary_concat(rest, Seq::empty());
        assert(rest + Seq::<char>::empty() =~= rest);
    }
}

/// Whether a file marker can go back after the first `count` lines of a text: it starts a
/// line there, what follows doesn't read like its options and, when the marker itself
/// has no line end, nothing follows
pub open spec fn takes_marker(s: Seq<char>, count: nat, has_end: bool) -> bool {
    let at = lines::lines_length(s, count) as int;
    &&& is_whole(s.take(at))
    &&& !starts_like_options(s.skip(at))
    &&& has_end || at == s.len()
}

/// The only marker of a text, on the lines `f` up to `last`, moved among other lines
proof fn lemma_moved_file_marker(
    list: Seq<Seq<char>>,
    total: nat,
    header: HeaderModel,
    all: Seq<Seq<char>>,
    all_total: nat,
    f: int,
)
    requires
        scans::is_file_marker(list, total, header),
        0 <= f,
        f + (header.last_line - header.first_line + 1) <= all.len(),
        forall|k: int|
            header.first_line - 1 <= k < header.last_line ==> #[trigger] list[k] == all[k + f - (
            header.first_line - 1)],
        !markers::continues(all, f + (header.last_line - header.first_line + 1)),
        forall|k: int|
            0 <= k < f || f + (header.last_line - header.first_line + 1) <= k < all.len()
                ==> !text::occurs(#[trigger] all[k], markers::MARKER_PREFIX@),
    ensures
        ({
            let found = markers::scan_spec(all, all_total, 0, edit_laws::empty_scan());
            found.markers.file matches Some(after) && after.options == header.options
                && after.first_line == f + 1 && after.last_line == f + (header.last_line
                - header.first_line + 1)
        }),
{
    let g = header.first_line - 1;
    let last = header.last_line as int;
    let d = f - g;
    let empty = edit_laws::empty_scan();
    let (_, after) = text::split_once_spec(list[g], markers::MARKER_PREFIX@)->0;
    assert(list[g] == all[g + d]);
    scans::lemma_moved_body(list, all, g, last, d, after);
    let (marker, end) = markers::body_spec(all, f, after);
    assert(end == last - 1 + d);
    edit_laws::lemma_scan_skips(all, all_total, 0, f, empty);
    let next = edit_laws::after_marker(all, all_total, f, after, empty);
    assert(next.markers.file is Some);
    edit_laws::lemma_scan_skips(all, all_total, end + 1, all.len() as int, next);
    markers::lemma_continuation_count(all, f + 1);
}

/// The lines of a file with its marker put back into the changed text
spec fn edited_lines(
    list: Seq<Seq<char>>,
    header: HeaderModel,
    changed: Seq<char>,
) -> Seq<Seq<char>> {
    let at = lines::lines_length(changed, (header.first_line - 1) as nat) as int;
    lines_in(changed.take(at)) + list.subrange(
        header.first_line - 1,
        header.last_line as int,
    ) + (if header.last_line < list.len() {
        lines::split(changed.skip(at), '\n')
    } else {
        Seq::empty()
    })
}

/// A file with its marker put back into the changed text
proof fn lemma_edited_text(s: Seq<char>, header: HeaderModel, changed: Seq<char>)
    requires
        marker_laws::header_in(lines::split(s, '\n'), bytes::byte_len(s), header),
        takes_marker(
            changed,
            (header.first_line - 1) as nat,
            header.last_line < lines::split(s, '\n').len(),
        ),
    ensures
        ({
            let list = lines::split(s, '\n');
            let all = edited_lines(list, header, changed);
            let (_, marker, _) = edits::split_around_spec(
                s,
                header.marker_from,
                header.marker_to,
            )->Ok_0;
            let edited = edits::insert_after_lines(
                changed,
                (header.first_line - 1) as nat,
                marker,
            );
            &&& edited == lines::join(all, seq!['\n'])
            &&& lines::split(edited, '\n') == all
        }),
{
    let list = lines::split(s, '\n');
    let sep = seq!['\n'];
    lines::lemma_split(s, '\n');
    lemma_file_parts(s, header);
    let g = header.first_line - 1;
    let last = header.last_line as int;
    let marker = list.subrange(g, last);
    let at = lines::lines_length(changed, g as nat) as int;
    lines::lemma_lines_length(changed, g as nat);
    let first = changed.take(at);
    let second = changed.skip(at);
    let before = lines_in(first);
    let after = if last < list.len() {
        lines::split(second, '\n')
    } else {
        Seq::empty()
    };
    let all = edited_lines(list, header, changed);
    lemma_lines_in(first);
    lines::lemma_split(second, '\n');
    lines::lemma_join_split(second, '\n');
    lemma_joined_parts(before, marker, after);
    assert(all == before + marker + after);
    if last == list.len() {
        assert(second =~= Seq::<char>::empty());
        assert(first + lines::join(marker, sep) + second =~= first + lines::join(marker, sep));
    }
    assert forall|i: int| 0 <= i < all.len() implies !(#[trigger] all[i]).contains('\n') by {
        if i < before.len() {
            assert(all[i] == before[i]);
        } else if i < before.len() + marker.len() {
            assert(all[i] == list[g + i - before.len()]);
        } else {
            assert(all[i] == after[i - before.len() - marker.len()]);
        }
    }
    lines::lemma_split_join(all, '\n');
}

/// The only marker of a file, in the changed text
proof fn lemma_edited_marker(
    list: Seq<Seq<char>>,
    total: nat,
    header: HeaderModel,
    changed: Seq<char>,
)
    requires
        scans::is_file_marker(list, total, header),
        !text::occurs(changed, markers::MARKER_PREFIX@),
        takes_marker(changed, (header.first_line - 1) as nat, header.last_line < list.len()),
    ensures
        ({
            let all = edited_lines(list, header, changed);
            let at = lines::lines_length(changed, (header.first_line - 1) as nat) as int;
            let f = lines_in(changed.take(at)).len() as int;
            let found = markers::scan_spec(
                all,
                scans::length_of(all),
                0,
                edit_laws::empty_scan(),
            );
            found.markers.file matches Some(after) && after.options == header.options
                && after.first_line == f + 1 && after.last_line == f + (header.last_line
                - header.first_line + 1)
        }),
{
    let g = header.first_line - 1;
    let last = header.last_line as int;
    let marker = list.subrange(g, last);
    let count = marker.len() as int;
    let at = lines::lines_length(changed, g as nat) as int;
    lines::lemma_lines_length(changed, g as nat);
    let first = changed.take(at);
    let second = changed.skip(at);
    let before = lines_in(first);
    let f = before.len() as int;
    let all = edited_lines(list, header, changed);
    lines::lemma_split(first, '\n');
    lines::lemma_split(second, '\n');
    lemma_parts_have_no_markers(changed, at);
    assert(!markers::continues(all, f + count)) by {
        if last < list.len() {
            assert(all[f + count] == lines::split(second, '\n')[0]);
        }
    }
    assert forall|k: int| 0 <= k < f || f + count <= k < all.len() implies !text::occurs(
        #[trigger] all[k],
        markers::MARKER_PREFIX@,
    ) by {
        if k < f {
            assert(all[k] == lines::split(first, '\n')[k]);
        } else {
            assert(all[k] == lines::split(second, '\n')[k - f - count]);
        }
    }
    assert forall|k: int| g <= k < last implies #[trigger] list[k] == all[k + f - g] by {
        assert(all[k + f - g] == marker[k - g]);
    }
    lemma_moved_file_marker(list, total, header, all, scans::length_of(all), f);
}

/// What the marker put back into the changed text marks
proof fn lemma_edited_parts(
    list: Seq<Seq<char>>,
    header: HeaderModel,
    changed: Seq<char>,
    edited: Seq<char>,
    found: HeaderModel,
)
    requires
        1 <= header.first_line <= header.last_line <= list.len(),
        takes_marker(changed, (header.first_line - 1) as nat, header.last_line < list.len()),
        lines::split(edited, '\n') == edited_lines(list, header, changed),
        marker_laws::header_in(lines::split(edited, '\n'), bytes::byte_len(edited), found),
        ({
            let at = lines::lines_length(changed, (header.first_line - 1) as nat) as int;
            let f = lines_in(changed.take(at)).len();
            found.first_line == f + 1 && found.last_line == f + (header.last_line
                - header.first_line + 1)
        }),
    ensures
        unmarked(edited, found) == changed,
{
    let g = header.first_line - 1;
    let last = header.last_line as int;
    let all = edited_lines(list, header, changed);
    lemma_file_parts(edited, found);
    let at = lines::lines_length(changed, g as nat) as int;
    lines::lemma_lines_length(changed, g as nat);
    let before = lines_in(changed.take(at));
    let f = before.len() as int;
    lemma_lines_in(changed.take(at));
    lines::lemma_join_split(changed.skip(at), '\n');
    lines::lemma_split(changed.skip(at), '\n');
    assert(all.take(f) =~= before);
    assert(before.subrange(0, f) =~= before);
    assert(marker_laws::head(all, f) =~= changed.take(at));
    if last < list.len() {
        assert(all.skip(f + (last - g)) =~= lines::split(changed.skip(at), '\n'));
    }
    assert(changed.take(at) + changed.skip(at) =~= changed);
    assert(unmarked(edited, found) =~= changed);
}

/// A file marked whole that is rewritten keeps its options, and its marked lines are the
/// rewritten ones, as long as it holds no other markers and its own can go back after as
/// many lines as before
pub proof fn law_edited_file_reads_back(s: Seq<char>, rewrite: Rewrite)
    requires
        markers::markers_spec(s).file matches Some(header) && !text::occurs(
            unmarked(s, header),
            markers::MARKER_PREFIX@,
        ) && takes_marker(
            edits::rewritten(rewrite, unmarked(s, header)),
            (header.first_line - 1) as nat,
            header.last_line < lines::split(s, '\n').len(),
        ),
    ensures
        ({
            let header = markers::markers_spec(s).file->0;
            let changed = edits::rewritten(rewrite, unmarked(s, header));
            edits::edit_region_spec(s, None, rewrite) matches Ok(edited) && (
            markers::markers_spec(edited).file matches Some(after) && after.options
                == header.options && unmarked(edited, after) == changed
                && repo::marked_file_spec(edited, after) is Ok)
        }),
{
    let list = lines::split(s, '\n');
    let header = markers::markers_spec(s).file->0;
    lines::lemma_split(s, '\n');
    lines::lemma_join_split(s, '\n');
    scans::lemma_traced(s);
    marker_laws::law_markers_are_whole_lines(s);
    lemma_file_parts(s, header);
    let changed = edits::rewritten(rewrite, unmarked(s, header));
    let edited = edits::edit_region_spec(s, None, rewrite)->Ok_0;
    lemma_edited_text(s, header, changed);
    lemma_rewrite_makes_no_markers(rewrite, unmarked(s, header));
    lemma_edited_marker(list, scans::length_of(list), header, changed);
    let found = markers::markers_spec(edited).file->0;
    marker_laws::law_markers_are_whole_lines(edited);
    repo::law_marked_code_is_in_the_text(edited);
    lemma_edited_parts(list, header, changed, edited, found);
}

/// Whole lines, a marker's lines, and the rest of a text
pub proof fn lemma_joined_parts(
    before: Seq<Seq<char>>,
    marker: Seq<Seq<char>>,
    after: Seq<Seq<char>>,
)
    requires
        marker.len() > 0,
    ensures
        lines::join(before + marker + after, seq!['\n']) == (if after.len() > 0 {
            ended(before) + ended(marker) + lines::join(after, seq!['\n'])
        } else {
            ended(before) + lines::join(marker, seq!['\n'])
        }),
{
    let sep = seq!['\n'];
    let tail = marker + after;
    assert(before.subrange(0, before.len() as int) =~= before);
    assert(marker.subrange(0, marker.len() as int) =~= marker);
    if after.len() > 0 {
        lines::lemma_join_concat(marker, after, sep);
        assert(lines::join(tail, sep) =~= ended(marker) + lines::join(after, sep));
    } else {
        assert(tail =~= marker);
    }
    assert(before + marker + after =~= before + tail);
    if before.len() > 0 {
        lines::lemma_join_concat(before, tail, sep);
        assert(lines::join(before + tail, sep) =~= ended(before) + lines::join(tail, sep));
    } else {
        assert(before + tail =~= tail);
        assert(ended(before) + lines::join(tail, sep) =~= lines::join(tail, sep));
    }
    if after.len() > 0 {
        assert(ended(before) + (ended(marker) + lines::join(after, sep)) =~= ended(before) + ended(
            marker,
        ) + lines::join(after, sep));
    }
}

proof fn lemma_parts_have_no_markers(s: Seq<char>, at: int)
    requires
        0 <= at <= s.len(),
        !text::occurs(s, markers::MARKER_PREFIX@),
    ensures
        forall|i: int|
            0 <= i < lines::split(s.take(at), '\n').len() ==> !text::occurs(
                #[trigger] lines::split(s.take(at), '\n')[i],
                markers::MARKER_PREFIX@,
            ),
        forall|i: int|
            0 <= i < lines::split(s.skip(at), '\n').len() ==> !text::occurs(
                #[trigger] lines::split(s.skip(at), '\n')[i],
                markers::MARKER_PREFIX@,
            ),
{
    let part = markers::MARKER_PREFIX@;
    let empty = Seq::<char>::empty();
    if text::occurs(s.take(at), part) {
        lemma_occurs_inside(empty, s.take(at), s.skip(at), part);
        assert(empty + s.take(at) + s.skip(at) =~= s);
    }
    if text::occurs(s.skip(at), part) {
        lemma_occurs_inside(s.take(at), s.skip(at), empty, part);
        assert(s.take(at) + s.skip(at) + empty =~= s);
    }
    lemma_split_has_no_markers(s.take(at));
    lemma_split_has_no_markers(s.skip(at));
}

} // verus!
