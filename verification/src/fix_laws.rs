//! What a fix makes of a file matches the doc block it's for.

use crate::apply;
use crate::apply::MisfitModel;
use crate::bytes;
use crate::edit_laws;
use crate::edits;
use crate::edits::Rewrite;
use crate::extend_laws;
use crate::lightbulb;
use crate::lightbulb::{FixModel, PlanModel};
use crate::lines;
use crate::marker_laws;
use crate::markers;
use crate::matching;
use crate::options;
use crate::options::{OptionModel, OptionSide};
use crate::repo;
use crate::rewrite_laws;
use crate::text;
use crate::text::CharClass;
use vstd::prelude::*;

verus! {

// ---------------------------------------------------------------------------
// Options by side
// ---------------------------------------------------------------------------

proof fn lemma_on_side_concat(first: Seq<OptionModel>, second: Seq<OptionModel>, side: OptionSide)
    ensures
        repo::on_side(first + second, side) == repo::on_side(first, side) + repo::on_side(
            second,
            side,
        ),
    decreases second.len(),
{
    if second.len() == 0 {
        assert(first + second =~= first);
        assert(repo::on_side(first, side) + repo::on_side(second, side) =~= repo::on_side(
            first,
            side,
        ));
    } else {
        assert((first + second).drop_last() =~= first + second.drop_last());
        lemma_on_side_concat(first, second.drop_last(), side);
        assert(repo::on_side(first + second, side) =~= repo::on_side(first, side) + repo::on_side(
            second,
            side,
        ));
    }
}

/// Whether all of some options are for a side
pub open spec fn all_on(list: Seq<OptionModel>, side: OptionSide) -> bool {
    forall|i: int| 0 <= i < list.len() ==> (#[trigger] list[i]).side == side
}

proof fn lemma_all_on(list: Seq<OptionModel>, side: OptionSide, other: OptionSide)
    requires
        all_on(list, side),
        other != side,
    ensures
        repo::on_side(list, side) == list,
        repo::on_side(list, other) == Seq::<OptionModel>::empty(),
    decreases list.len(),
{
    if list.len() > 0 {
        assert(list[list.len() - 1] == list.last());
        lemma_all_on(list.drop_last(), side, other);
        assert(list.drop_last().push(list.last()) =~= list);
    }
}

// ---------------------------------------------------------------------------
// Lines without comments
// ---------------------------------------------------------------------------

proof fn lemma_compared_take(list: Seq<Seq<char>>, skip: bool, k: int)
    requires
        0 <= k < lightbulb::compared(list, skip).len(),
    ensures
        ({
            let all = lightbulb::compared(list, skip);
            &&& lightbulb::compared(list.take(all[k]), skip) == all.take(k)
            &&& lightbulb::compared(list.take(all[k] + 1), skip) == all.take(k + 1)
        }),
    decreases list.len(),
{
    let all = lightbulb::compared(list, skip);
    let rest = list.drop_last();
    let inner = lightbulb::compared(rest, skip);
    lightbulb::lemma_compared(list, skip);
    lightbulb::lemma_compared(rest, skip);
    if k < inner.len() {
        lemma_compared_take(rest, skip, k);
        assert(all[k] == inner[k]);
        assert(rest.take(all[k]) =~= list.take(all[k]));
        assert(rest.take(all[k] + 1) =~= list.take(all[k] + 1));
        assert(all.take(k) =~= inner.take(k));
        assert(all.take(k + 1) =~= inner.take(k + 1));
    } else {
        assert(all[k] == list.len() - 1);
        assert(list.take(all[k]) =~= rest);
        assert(all.take(k) =~= inner);
        assert(list.take(all[k] + 1) =~= list);
        assert(all.take(k + 1) =~= all);
    }
}

proof fn lemma_without_starting_concat(
    first: Seq<Seq<char>>,
    second: Seq<Seq<char>>,
    value: Seq<char>,
)
    ensures
        apply::without_starting(first + second, value) == apply::without_starting(first, value)
            + apply::without_starting(second, value),
    decreases second.len(),
{
    if second.len() == 0 {
        assert(first + second =~= first);
        assert(apply::without_starting(first, value) + apply::without_starting(second, value)
            =~= apply::without_starting(first, value));
    } else {
        assert((first + second).drop_last() =~= first + second.drop_last());
        lemma_without_starting_concat(first, second.drop_last(), value);
        assert(apply::without_starting(first + second, value) =~= apply::without_starting(
            first,
            value,
        ) + apply::without_starting(second, value));
    }
}

/// The lines at some indexes
spec fn lines_at(list: Seq<Seq<char>>, indexes: Seq<int>) -> Seq<Seq<char>> {
    Seq::new(indexes.len(), |k: int| list[indexes[k]])
}

/// The lines that are compared are those that aren't comments
proof fn lemma_without_comments(list: Seq<Seq<char>>)
    ensures
        apply::without_starting(list, "#"@) == lines_at(list, lightbulb::compared(list, true)),
    decreases list.len(),
{
    reveal_strlit("#");
    if list.len() > 0 {
        let rest = list.drop_last();
        lemma_without_comments(rest);
        lightbulb::lemma_compared(rest, true);
        lightbulb::lemma_compared(list, true);
        let inner = lightbulb::compared(rest, true);
        assert(lines_at(rest, inner) =~= lines_at(list, inner));
        assert(!"#"@.contains('*'));
        if !lightbulb::is_comment_spec(list.last()) {
            assert(lines_at(list, inner).push(list.last()) =~= lines_at(
                list,
                lightbulb::compared(list, true),
            ));
        }
    }
}

/// The lines from the `p`th compared one on, without comments, are the compared ones
proof fn lemma_window_lines(list: Seq<Seq<char>>, p: int, n: int)
    requires
        0 <= p,
        0 < n,
        p + n <= lightbulb::compared(list, true).len(),
    ensures
        ({
            let all = lightbulb::compared(list, true);
            apply::without_starting(list.subrange(all[p], all[p + n - 1] + 1), "#"@) == lines_at(
                list,
                all.subrange(p, p + n),
            )
        }),
{
    let all = lightbulb::compared(list, true);
    lightbulb::lemma_compared(list, true);
    let a = all[p];
    let b = all[p + n - 1] + 1;
    lemma_compared_take(list, true, p);
    lemma_compared_take(list, true, p + n - 1);
    lemma_without_comments(list.take(a));
    lemma_without_comments(list.take(b));
    let middle = list.subrange(a, b);
    assert(list.take(b) =~= list.take(a) + middle);
    lemma_without_starting_concat(list.take(a), middle, "#"@);
    let before = lines_at(list.take(a), all.take(p));
    let whole = lines_at(list.take(b), all.take(p + n));
    let kept = apply::without_starting(middle, "#"@);
    assert(before + kept == whole);
    assert(kept =~= whole.skip(p));
    assert(whole.skip(p) =~= lines_at(list, all.subrange(p, p + n)));
}

/// Indexes that are as close together as can be follow one another
proof fn lemma_contiguous(indexes: Seq<int>, p: int, n: int, k: int)
    requires
        0 <= p,
        0 <= k < n,
        p + n <= indexes.len(),
        forall|i: int, j: int|
            0 <= i < j < indexes.len() ==> (#[trigger] indexes[i]) < (#[trigger] indexes[j]),
        indexes[p + n - 1] - indexes[p] == n - 1,
    ensures
        indexes[p + k] == indexes[p] + k,
{
    lemma_gap(indexes, p, k);
    lemma_gap(indexes, p + k, n - 1 - k);
}

proof fn lemma_gap(indexes: Seq<int>, p: int, k: int)
    requires
        0 <= p,
        0 <= k,
        p + k < indexes.len(),
        forall|i: int, j: int|
            0 <= i < j < indexes.len() ==> (#[trigger] indexes[i]) < (#[trigger] indexes[j]),
    ensures
        indexes[p + k] - indexes[p] >= k,
    decreases k,
{
    if k > 0 {
        lemma_gap(indexes, p, k - 1);
        assert(indexes[p + k - 1] < indexes[p + k]);
    }
}

proof fn lemma_compared_all(list: Seq<Seq<char>>)
    ensures
        lightbulb::compared(list, false) == Seq::new(list.len(), |i: int| i),
    decreases list.len(),
{
    if list.len() > 0 {
        lemma_compared_all(list.drop_last());
        assert(lightbulb::compared(list, false) =~= Seq::new(list.len(), |i: int| i));
    } else {
        assert(lightbulb::compared(list, false) =~= Seq::new(list.len(), |i: int| i));
    }
}

// ---------------------------------------------------------------------------
// Marking part of a file
// ---------------------------------------------------------------------------

proof fn lemma_remove_comments_fits()
    ensures
        edit_laws::fits_a_line(lightbulb::remove_comments_spec()),
{
    let option = lightbulb::remove_comments_spec();
    reveal_strlit("remove-lines-starting-with");
    reveal_strlit("#");
    reveal_strlit(": ");
    reveal_strlit("\"");
    reveal_strlit("");
    reveal_with_fuel(options::escaped, 3);
    let written = options::option_text(option);
    assert(markers::MARKER_PREFIX@.len() > 0 && markers::MARKER_PREFIX@[0] == '@') by {
        reveal_strlit("@docs-as-code:");
    }
    assert(options::escaped("#"@) =~= "#"@);
    assert(forall|i: int| 0 <= i < written.len() ==> written[i] != '@' && written[i] != '\n');
    if text::occurs(written, markers::MARKER_PREFIX@) {
        let i = choose|i: int| text::occurs_at(written, markers::MARKER_PREFIX@, i);
        assert(written[i] == '@');
    }
}

/// Whether a file's lines can be marked as a section: its name can be one's and isn't
/// used, the options can stand under the marker, none of the lines is a marker, and the
/// first one isn't read as an option
pub open spec fn can_mark(s: Seq<char>, fix: FixModel, doc_options: Seq<OptionModel>) -> bool {
    fix matches FixModel::MarkSection { name, first_line, line_count, .. } && {
        &&& edit_laws::is_section_name(name)
        &&& !edit_laws::uses_name(s, name)
        &&& edit_laws::fit_lines(doc_options)
        &&& all_on(doc_options, OptionSide::Doc)
        &&& forall|i: int|
            first_line - 1 <= i < first_line - 1 + line_count ==> !text::occurs(
                #[trigger] lines::split(s, '\n')[i],
                markers::MARKER_PREFIX@,
            )
        &&& !markers::continues(lines::split(s, '\n'), first_line - 1)
    }
}

/// Whether a text has a section that, with its options applied, is a doc, and that has
/// the given options for the doc
pub open spec fn has_section_like(
    s: Seq<char>,
    name: Seq<char>,
    doc: Seq<char>,
    doc_options: Seq<OptionModel>,
) -> bool {
    markers::section_spec(markers::markers_spec(s), name) matches Some(section) && {
        &&& repo::on_side(section.header.options, OptionSide::Doc) == doc_options
        &&& repo::marked_section_spec(s, section) matches Ok(raw) && apply::apply_options_spec(
            raw.raw,
            repo::on_side(section.header.options, OptionSide::Repo),
        ) == Ok::<_, MisfitModel>(doc)
    }
}

/// Lines with comments removed
proof fn lemma_remove_comments(part: Seq<Seq<char>>)
    requires
        part.len() > 0,
        forall|i: int| 0 <= i < part.len() ==> !(#[trigger] part[i]).contains('\n'),
    ensures
        apply::apply_options_spec(
            lines::join(part, seq!['\n']).push('\n'),
            seq![lightbulb::remove_comments_spec()],
        ) == Ok::<_, MisfitModel>(
            lines::join(apply::without_starting(part, "#"@), seq!['\n']).push('\n'),
        ),
{
    let content = lines::join(part, seq!['\n']).push('\n');
    let kept = apply::without_starting(part, "#"@);
    let applied = seq![lightbulb::remove_comments_spec()];
    lines::lemma_split_join(part, '\n');
    assert(apply::without_newline(content) =~= lines::join(part, seq!['\n']));
    assert(!"#"@.contains('*')) by {
        reveal_strlit("#");
    }
    assert(apply::apply_option_spec(part, applied[0]) == Ok::<_, MisfitModel>(kept)) by {
        reveal_strlit("remove-lines-starting-with");
        reveal_strlit("remove-prefix");
        reveal_strlit("remove-suffix");
        reveal_strlit("strip-line-prefix");
        assert("remove-lines-starting-with"@.len() != "remove-prefix"@.len());
        assert("remove-lines-starting-with"@.len() != "remove-suffix"@.len());
        assert("remove-lines-starting-with"@.len() != "strip-line-prefix"@.len());
    }
    assert(applied.drop_first() =~= Seq::<OptionModel>::empty());
    assert(apply::apply_all(kept, applied.drop_first()) == Ok::<_, MisfitModel>(kept));
    assert(apply::apply_all(part, applied) == Ok::<_, MisfitModel>(kept));
    reveal_strlit("\n");
    assert("\n"@ =~= seq!['\n']);
    assert(lines::join(kept, "\n"@) + apply::ending_newline(content) =~= lines::join(
        kept,
        seq!['\n'],
    ).push('\n'));
}

/// The lines of a window, with the options that its section gets applied, are the doc
proof fn lemma_window_is_doc(doc: Seq<char>, list: Seq<Seq<char>>, p: int)
    requires
        doc.len() > 0,
        doc.last() == '\n',
        forall|i: int| 0 <= i < list.len() ==> !(#[trigger] list[i]).contains('\n'),
        0 <= p,
        ({
            let doc_lines = lightbulb::doc_lines_of(doc);
            let indexes = lightbulb::compared(list, !lightbulb::any_comment(doc_lines));
            lightbulb::window_at(list, indexes, doc_lines, p)
        }),
    ensures
        ({
            let doc_lines = lightbulb::doc_lines_of(doc);
            let indexes = lightbulb::compared(list, !lightbulb::any_comment(doc_lines));
            let first = indexes[p];
            let end = indexes[p + doc_lines.len() - 1] + 1;
            apply::apply_options_spec(
                marker_laws::body(list, first, end),
                if end - first > doc_lines.len() {
                    seq![lightbulb::remove_comments_spec()]
                } else {
                    Seq::empty()
                },
            ) == Ok::<_, MisfitModel>(doc)
        }),
{
    let doc_lines = lightbulb::doc_lines_of(doc);
    let n = doc_lines.len() as int;
    let skip = !lightbulb::any_comment(doc_lines);
    let indexes = lightbulb::compared(list, skip);
    lines::lemma_split(apply::without_newline(doc), '\n');
    lightbulb::lemma_compared(list, skip);
    let first = indexes[p];
    let end = indexes[p + n - 1] + 1;
    let part = list.subrange(first, end);
    let content = marker_laws::body(list, first, end);
    reveal_strlit("\n");
    assert("\n"@ =~= seq!['\n']);
    lines::lemma_join_split(apply::without_newline(doc), '\n');
    assert(doc =~= lines::join(doc_lines, seq!['\n']).push('\n'));
    if n > 1 {
        assert(indexes[p] < indexes[p + n - 1]);
    }
    assert(content == lines::join(part, seq!['\n']).push('\n'));
    if end - first > n {
        if !skip {
            lemma_compared_all(list);
        }
        assert(skip);
        lemma_window_lines(list, p, n);
        let kept = apply::without_starting(part, "#"@);
        assert(kept =~= doc_lines) by {
            assert forall|k: int| 0 <= k < n implies kept[k] == doc_lines[k] by {
                assert(list[indexes[p + k]] == doc_lines[k]);
            }
        }
        assert forall|i: int| 0 <= i < part.len() implies !(#[trigger] part[i]).contains('\n') by {
            assert(part[i] == list[first + i]);
        }
        lemma_remove_comments(part);
    } else {
        lemma_gap(indexes, p, n - 1);
        assert(part =~= doc_lines) by {
            assert forall|k: int| 0 <= k < n implies part[k] == doc_lines[k] by {
                lemma_contiguous(indexes, p, n, k);
                assert(list[indexes[p + k]] == doc_lines[k]);
            }
        }
    }
}

/// A fix that marks lines of a file makes a section of them that matches the doc
pub proof fn law_marked_lines_match(
    module: Seq<char>,
    doc: Seq<char>,
    s: Seq<char>,
    doc_options: Seq<OptionModel>,
)
    requires
        doc.len() > 0,
        doc.last() == '\n',
        lightbulb::portion_plan_spec(module, doc, s, markers::markers_spec(s)) matches Some(fixes)
            && can_mark(s, fixes[0], doc_options),
    ensures
        ({
            let fixes = lightbulb::portion_plan_spec(
                module,
                doc,
                s,
                markers::markers_spec(s),
            )->0;
            edits::apply_spec(s, None, PlanModel { fixes, doc_options }) matches Ok(marked)
                && has_section_like(marked, fixes[0]->name, doc, doc_options)
        }),
{
    let found = markers::markers_spec(s);
    let fixes = lightbulb::portion_plan_spec(module, doc, s, found)->0;
    let doc_lines = lightbulb::doc_lines_of(doc);
    let n = doc_lines.len() as int;
    let list = lines::split(s, '\n');
    let indexes = lightbulb::compared(list, !lightbulb::any_comment(doc_lines));
    let p = lightbulb::first_window(list, indexes, doc_lines, 0)->0;
    lines::lemma_split(apply::without_newline(doc), '\n');
    lines::lemma_split(s, '\n');
    lightbulb::lemma_compared(list, !lightbulb::any_comment(doc_lines));
    lightbulb::lemma_first_window(list, indexes, doc_lines, 0);
    let first = indexes[p];
    let end = indexes[p + n - 1] + 1;
    let name = fixes[0]->name;
    let first_line = fixes[0]->first_line;
    let line_count = fixes[0]->line_count;
    let added = fixes[0]->options;
    if n > 1 {
        assert(indexes[p] < indexes[p + n - 1]);
    }
    assert(first_line == first + 1);
    assert(line_count == end - first);
    lemma_window_is_doc(doc, list, p);
    lemma_remove_comments_fits();
    assert(edit_laws::fit_lines(added + doc_options));
    edit_laws::law_marked_section_reads_back(s, name, first_line, line_count, added + doc_options);
    lemma_on_side_concat(added, doc_options, OptionSide::Repo);
    lemma_on_side_concat(added, doc_options, OptionSide::Doc);
    assert(all_on(added, OptionSide::Repo));
    lemma_all_on(added, OptionSide::Repo, OptionSide::Doc);
    lemma_all_on(doc_options, OptionSide::Doc, OptionSide::Repo);
    assert(added + Seq::<OptionModel>::empty() =~= added);
    assert(Seq::<OptionModel>::empty() + doc_options =~= doc_options);
    let marked = edits::mark_section_spec(s, name, first_line, line_count, added + doc_options)->Ok_0;
    assert(fixes.drop_last() =~= Seq::<FixModel>::empty());
    assert(fixes.last() == fixes[0]);
    assert(edits::apply_fixes_spec(s, None, fixes.drop_last(), doc_options) == Ok::<_, Seq<char>>(
        s,
    ));
    assert(edits::apply_fixes_spec(s, None, fixes, doc_options) == Ok::<_, Seq<char>>(marked));
    assert(edits::adds_marker(fixes[0]));
    assert(edits::options_placed(fixes));
}

// ---------------------------------------------------------------------------
// Rewriting marked code
// ---------------------------------------------------------------------------

/// Whether a text marks a section of that name, or itself when there's none, with some
/// options and with `marked` as the text that is rewritten in place; a file marked whole
/// has no other markers
pub open spec fn marks(
    s: Seq<char>,
    section: Option<Seq<char>>,
    options: Seq<OptionModel>,
    marked: Seq<char>,
) -> bool {
    match section {
        Some(name) => markers::section_spec(markers::markers_spec(s), name) matches Some(found)
            && found.header.options == options && (repo::marked_section_spec(
            s,
            found,
        ) matches Ok(raw) && raw.raw == marked),
        None => markers::markers_spec(s).file matches Some(header) && header.options == options
            && rewrite_laws::unmarked(s, header) == marked && !text::occurs(
            marked,
            markers::MARKER_PREFIX@,
        ),
    }
}

/// What the text that is rewritten in place is as code
pub open spec fn code_of(section: Option<Seq<char>>, marked: Seq<char>) -> Seq<char> {
    match section {
        Some(_) => marked,
        None => repo::whole_lines(marked),
    }
}

/// Whether what a text marks can become `changed` with its markers staying markers, and
/// nothing else becoming one
pub open spec fn can_become(
    s: Seq<char>,
    section: Option<Seq<char>>,
    changed: Seq<char>,
) -> bool {
    match section {
        Some(_) => rewrite_laws::is_whole(changed) && !rewrite_laws::starts_like_options(changed),
        None => markers::markers_spec(s).file matches Some(header) && rewrite_laws::takes_marker(
            changed,
            (header.first_line - 1) as nat,
            header.last_line < lines::split(s, '\n').len(),
        ),
    }
}

/// The rewrite that a fix of marked code makes
pub open spec fn rewrite_of(fix: FixModel) -> Option<Rewrite> {
    match fix {
        FixModel::RemoveDashes => Some(Rewrite::RemoveDashes),
        FixModel::AddDashes => Some(Rewrite::AddDashes),
        FixModel::TrailingNewline { wanted_newlines, .. } => Some(
            Rewrite::Newlines(wanted_newlines as usize),
        ),
        _ => None,
    }
}

/// Whether fixes only rewrite marked code
pub open spec fn all_rewrite(fixes: Seq<FixModel>) -> bool {
    forall|i: int| 0 <= i < fixes.len() ==> rewrite_of(#[trigger] fixes[i]) is Some
}

/// Marked code with fixes applied in order
pub open spec fn after_fixes(marked: Seq<char>, fixes: Seq<FixModel>) -> Seq<char>
    decreases fixes.len(),
{
    if fixes.len() == 0 {
        marked
    } else {
        edits::rewritten(rewrite_of(fixes.last())->0, after_fixes(marked, fixes.drop_last()))
    }
}

/// Whether what a text marks can be what it is after each of some fixes
pub open spec fn can_fix(
    s: Seq<char>,
    section: Option<Seq<char>>,
    marked: Seq<char>,
    fixes: Seq<FixModel>,
    doc_options: Seq<OptionModel>,
) -> bool
    decreases fixes.len(),
{
    fixes.len() == 0 || {
        &&& can_fix(s, section, marked, fixes.drop_last(), doc_options)
        &&& edits::apply_fixes_spec(s, section, fixes.drop_last(), doc_options) matches Ok(before)
            ==> can_become(before, section, after_fixes(marked, fixes))
    }
}

/// Marked code that is rewritten in place reads back as rewritten
proof fn lemma_rewrite_reads_back(
    s: Seq<char>,
    section: Option<Seq<char>>,
    options: Seq<OptionModel>,
    marked: Seq<char>,
    rewrite: Rewrite,
)
    requires
        marks(s, section, options, marked),
        can_become(s, section, edits::rewritten(rewrite, marked)),
    ensures
        edits::edit_region_spec(s, section, rewrite) matches Ok(edited) && marks(
            edited,
            section,
            options,
            edits::rewritten(rewrite, marked),
        ),
{
    match section {
        Some(name) => {
            rewrite_laws::law_edited_section_reads_back(s, name, rewrite);
        },
        None => {
            rewrite_laws::law_edited_file_reads_back(s, rewrite);
            rewrite_laws::lemma_rewrite_makes_no_markers(rewrite, marked);
        },
    }
}

proof fn lemma_section_stays(fixes: Seq<FixModel>, section: Option<Seq<char>>)
    requires
        all_rewrite(fixes),
    ensures
        lightbulb::section_before(fixes, section) == section,
        !edits::options_placed(fixes),
    decreases fixes.len(),
{
    assert forall|i: int| 0 <= i < fixes.len() implies !edits::adds_marker(#[trigger] fixes[i]) by {
        assert(rewrite_of(fixes[i]) is Some);
    }
    if fixes.len() > 0 {
        let head = fixes.drop_last();
        assert forall|i: int| 0 <= i < head.len() implies rewrite_of(#[trigger] head[i]) is Some by {
            assert(head[i] == fixes[i]);
        }
        lemma_section_stays(head, section);
        assert(rewrite_of(fixes[fixes.len() - 1]) is Some);
    }
}

/// Fixes that rewrite marked code in place leave it marked, with the same options, and
/// rewritten by each of them
pub proof fn law_fixed_code_reads_back(
    s: Seq<char>,
    section: Option<Seq<char>>,
    options: Seq<OptionModel>,
    marked: Seq<char>,
    fixes: Seq<FixModel>,
    doc_options: Seq<OptionModel>,
)
    requires
        marks(s, section, options, marked),
        all_rewrite(fixes),
        can_fix(s, section, marked, fixes, doc_options),
    ensures
        edits::apply_fixes_spec(s, section, fixes, doc_options) matches Ok(fixed) && marks(
            fixed,
            section,
            options,
            after_fixes(marked, fixes),
        ),
    decreases fixes.len(),
{
    if fixes.len() > 0 {
        let head = fixes.drop_last();
        let fix = fixes.last();
        assert forall|i: int| 0 <= i < head.len() implies rewrite_of(#[trigger] head[i]) is Some by {
            assert(head[i] == fixes[i]);
        }
        law_fixed_code_reads_back(s, section, options, marked, head, doc_options);
        lemma_section_stays(head, section);
        assert(rewrite_of(fixes[fixes.len() - 1]) is Some);
        let before = edits::apply_fixes_spec(s, section, head, doc_options)->Ok_0;
        let rewrite = rewrite_of(fix)->0;
        lemma_rewrite_reads_back(before, section, options, after_fixes(marked, head), rewrite);
        let edited = edits::edit_region_spec(before, section, rewrite)->Ok_0;
        assert(edits::apply_fix_spec(before, section, fix, doc_options) == Ok::<_, Seq<char>>(
            edited,
        ));
    }
}

// ---------------------------------------------------------------------------
// Normalizing marked code
// ---------------------------------------------------------------------------

/// The fixes that normalize code do so to the text that is rewritten in place, unless
/// that's a file of three dashes with no line end
proof fn lemma_normalized(doc: Seq<char>, section: Option<Seq<char>>, marked: Seq<char>)
    requires
        0 < lightbulb::newlines_at_end(doc) <= usize::MAX,
        section is None ==> marked != "---"@,
    ensures
        ({
            let (normalized, fixes) = lightbulb::normalize_spec(doc, code_of(section, marked));
            &&& all_rewrite(fixes)
            &&& code_of(section, after_fixes(marked, fixes)) == normalized
        }),
{
    let code = code_of(section, marked);
    let (dashed, dashes_fix) = lightbulb::dashes_spec(doc, code);
    let (normalized, newlines_fix) = lightbulb::newlines_spec(doc, dashed);
    let first = lightbulb::as_list(dashes_fix);
    let second = lightbulb::as_list(newlines_fix);
    let fixes = first + second;
    lemma_dashes_on_text(doc, section, marked);
    let text = after_fixes(marked, first);
    assert(code_of(section, text) == dashed);
    if second.len() > 0 {
        assert(fixes.drop_last() =~= first);
        assert(fixes.last() == second[0]);
        lemma_newlines_on_text(section, text, lightbulb::newlines_at_end(doc));
    } else {
        assert(fixes =~= first);
    }
}

proof fn lemma_dashes_on_text(doc: Seq<char>, section: Option<Seq<char>>, marked: Seq<char>)
    requires
        section is None ==> marked != "---"@,
    ensures
        ({
            let (dashed, fix) = lightbulb::dashes_spec(doc, code_of(section, marked));
            code_of(section, after_fixes(marked, lightbulb::as_list(fix))) == dashed
        }),
{
    let code = code_of(section, marked);
    let (dashed, fix) = lightbulb::dashes_spec(doc, code);
    let fixes = lightbulb::as_list(fix);
    let dashes = "---\n"@;
    reveal_strlit("---\n");
    reveal_strlit("---");
    if let Some(made) = fix {
        assert(fixes =~= seq![made]);
        assert(fixes.drop_last() =~= Seq::<FixModel>::empty());
        assert(after_fixes(marked, fixes.drop_last()) == marked);
        if made is RemoveDashes {
            if section is None {
                // Only three dashes with no line end would have the prefix as code alone
                if !dashes.is_prefix_of(marked) {
                    assert(code == marked.push('\n'));
                    assert(code.take(4) == dashes);
                    if marked.len() >= 4 {
                        assert(marked.take(4) =~= code.take(4));
                    } else {
                        assert(marked =~= code.take(3));
                        assert(marked =~= "---"@);
                    }
                }
                if code != marked {
                    assert(code.skip(4) =~= marked.skip(4).push('\n'));
                    assert(marked.skip(4).len() > 0) by {
                        if marked.skip(4).len() == 0 {
                            assert(marked =~= marked.take(4));
                            assert(marked.last() == dashes[3]);
                        }
                    }
                    assert(marked.skip(4).last() == marked.last());
                } else if marked.skip(4).len() > 0 {
                    assert(marked.skip(4).last() == marked.last());
                }
            }
        } else {
            if section is None && marked.len() > 0 {
                assert((dashes + marked).last() == marked.last());
                if code != marked {
                    assert((dashes + marked).push('\n') =~= dashes + code);
                }
            } else if section is None {
                assert(dashes + marked =~= dashes);
                assert(dashes.last() == '\n');
                assert(dashes + code =~= dashes);
            }
        }
    }
}

proof fn lemma_newlines_on_text(section: Option<Seq<char>>, marked: Seq<char>, count: nat)
    requires
        count > 0,
    ensures
        code_of(section, lightbulb::with_newlines(marked, count)) == lightbulb::with_newlines(
            code_of(section, marked),
            count,
        ),
{
    if section is None {
        let code = code_of(section, marked);
        let body = text::before_end_run(marked, CharClass::Newline);
        text::lemma_end_span(marked, CharClass::Newline);
        if code != marked {
            assert(code.drop_last() =~= marked);
            assert(code.last() == '\n');
            assert(text::end_span(code, CharClass::Newline) == 1 + text::end_span(
                marked,
                CharClass::Newline,
            ));
            assert(text::before_end_run(code, CharClass::Newline) =~= body);
        }
        let changed = body + lightbulb::newlines(count);
        assert(changed.last() == '\n');
    }
}

/// Code with only `param` options stays as it is
proof fn lemma_unshaped(code: Seq<char>, applied: Seq<OptionModel>)
    requires
        !apply::shapes(applied),
        apply::apply_options_spec(code, applied) is Ok,
    ensures
        apply::apply_options_spec(code, applied) == Ok::<_, MisfitModel>(code),
{
    let list = lines::split(apply::without_newline(code), '\n');
    lemma_params_only(list, applied);
    lines::lemma_join_split(apply::without_newline(code), '\n');
    reveal_strlit("\n");
    assert("\n"@ =~= seq!['\n']);
    assert(apply::without_newline(code) + apply::ending_newline(code) =~= code);
}

proof fn lemma_params_only(list: Seq<Seq<char>>, applied: Seq<OptionModel>)
    requires
        !apply::shapes(applied),
    ensures
        apply::apply_all(list, applied) matches Ok(result) ==> result == list,
    decreases applied.len(),
{
    if applied.len() > 0 {
        assert(applied[0].key == "param"@);
        apply::law_params_change_nothing(list, applied[0]);
        let others = applied.drop_first();
        assert forall|i: int| 0 <= i < others.len() implies (#[trigger] others[i]).key
            == "param"@ by {
            assert(others[i] == applied[i + 1]);
        }
        lemma_params_only(list, others);
    }
}

/// Whether a text marks code that, with its options applied, is `code`, with the given
/// options for the doc
pub open spec fn marks_code(
    s: Seq<char>,
    section: Option<Seq<char>>,
    code: Seq<char>,
    code_options: Seq<OptionModel>,
    doc_options: Seq<OptionModel>,
) -> bool {
    exists|options: Seq<OptionModel>, marked: Seq<char>|
        {
            &&& #[trigger] marks(s, section, options, marked)
            &&& repo::on_side(options, OptionSide::Repo) == code_options
            &&& repo::on_side(options, OptionSide::Doc) == doc_options
            &&& apply::apply_options_spec(code_of(section, marked), code_options) == Ok::<
                _,
                MisfitModel,
            >(code)
        }
}

/// Options added to a marker read back after those it had
proof fn lemma_extension_reads_back(
    s: Seq<char>,
    section: Option<Seq<char>>,
    options: Seq<OptionModel>,
    marked: Seq<char>,
    added: Seq<OptionModel>,
)
    requires
        marks(s, section, options, marked),
        edit_laws::fit_lines(added),
    ensures
        edits::extend_marker_spec(s, section, added) matches Ok(extended) && marks(
            extended,
            section,
            options + added,
            marked,
        ),
{
    match section {
        Some(name) => {
            extend_laws::law_extended_section_reads_back(s, name, added);
        },
        None => {
            extend_laws::law_extended_file_reads_back(s, added);
        },
    }
}

/// A fix of marked code, without options that shape it, makes it code that matches the
/// doc with the placeholders it had, adding the plan's options for the doc to those of
/// its marker, as long as its `param`s still appear in it
pub proof fn law_fixed_code_matches(
    s: Seq<char>,
    section: Option<Seq<char>>,
    options: Seq<OptionModel>,
    marked: Seq<char>,
    doc: Seq<char>,
    placeholders: Seq<Seq<char>>,
    doc_options: Seq<OptionModel>,
)
    requires
        marks(s, section, options, marked),
        section is None ==> marked != "---"@,
        !apply::shapes(repo::on_side(options, OptionSide::Repo)),
        0 < lightbulb::newlines_at_end(doc) <= usize::MAX,
        edit_laws::fit_lines(doc_options),
        all_on(doc_options, OptionSide::Doc),
        lightbulb::content_plan_spec(
            doc,
            code_of(section, marked),
            Seq::empty(),
            true,
            placeholders,
        ) matches Ok(Some(fixes)) && can_fix(s, section, marked, fixes, doc_options),
        apply::apply_options_spec(
            lightbulb::normalize_spec(doc, code_of(section, marked)).0,
            repo::on_side(options, OptionSide::Repo),
        ) is Ok,
    ensures
        ({
            let code = code_of(section, marked);
            let fixes = lightbulb::content_plan_spec(
                doc,
                code,
                Seq::empty(),
                true,
                placeholders,
            )->Ok_0->0;
            let fixed = lightbulb::normalize_spec(doc, code).0;
            &&& matching::match_content_spec(fixed, placeholders, doc) matches Ok(found) && found is Some
            &&& edits::apply_spec(s, section, PlanModel { fixes, doc_options }) matches Ok(result)
            &&& marks_code(
                result,
                section,
                fixed,
                repo::on_side(options, OptionSide::Repo),
                repo::on_side(options, OptionSide::Doc) + doc_options,
            )
        }),
{
    let code = code_of(section, marked);
    let (fixed, normalizing) = lightbulb::normalize_spec(doc, code);
    let fixes = lightbulb::content_plan_spec(
        doc,
        code,
        Seq::empty(),
        true,
        placeholders,
    )->Ok_0->0;
    assert(fixes =~= normalizing);
    lemma_normalized(doc, section, marked);
    lemma_section_stays(fixes, section);
    law_fixed_code_reads_back(s, section, options, marked, fixes, doc_options);
    let text = after_fixes(marked, fixes);
    let changed = edits::apply_fixes_spec(s, section, fixes, doc_options)->Ok_0;
    lemma_extension_reads_back(changed, section, options, text, doc_options);
    let code_options = repo::on_side(options, OptionSide::Repo);
    lemma_unshaped(fixed, code_options);
    lemma_on_side_concat(options, doc_options, OptionSide::Repo);
    lemma_on_side_concat(options, doc_options, OptionSide::Doc);
    lemma_all_on(doc_options, OptionSide::Doc, OptionSide::Repo);
    assert(code_options + Seq::<OptionModel>::empty() =~= code_options);
    assert(options + Seq::<OptionModel>::empty() =~= options);
    let result = edits::apply_spec(s, section, PlanModel { fixes, doc_options })->Ok_0;
    if doc_options.len() == 0 {
        assert(doc_options =~= Seq::<OptionModel>::empty());
    }
    assert(marks(result, section, options + doc_options, text));
}

// ---------------------------------------------------------------------------
// Marking a whole file
// ---------------------------------------------------------------------------

/// Fixes after marking a file are applied to the marked file
proof fn lemma_fixes_after_marking(
    s: Seq<char>,
    fixes: Seq<FixModel>,
    doc_options: Seq<OptionModel>,
)
    requires
        all_rewrite(fixes),
    ensures
        edits::apply_fixes_spec(s, None, seq![FixModel::MarkFile] + fixes, doc_options)
            == edits::apply_fixes_spec(
            edits::mark_file_spec(s, doc_options),
            None,
            fixes,
            doc_options,
        ),
        lightbulb::section_before(seq![FixModel::MarkFile] + fixes, None) == None::<Seq<char>>,
    decreases fixes.len(),
{
    let all = seq![FixModel::MarkFile] + fixes;
    if fixes.len() == 0 {
        assert(all =~= seq![FixModel::MarkFile]);
        assert(all.drop_last() =~= Seq::<FixModel>::empty());
        assert(edits::apply_fixes_spec(s, None, all.drop_last(), doc_options) == Ok::<
            _,
            Seq<char>,
        >(s));
        assert(lightbulb::section_before(all.drop_last(), None) == None::<Seq<char>>);
    } else {
        let head = fixes.drop_last();
        assert forall|i: int| 0 <= i < head.len() implies rewrite_of(#[trigger] head[i]) is Some by {
            assert(head[i] == fixes[i]);
        }
        lemma_fixes_after_marking(s, head, doc_options);
        lemma_section_stays(head, None);
        assert(all.drop_last() =~= seq![FixModel::MarkFile] + head);
        assert(all.last() == fixes.last());
        assert(rewrite_of(fixes[fixes.len() - 1]) is Some);
    }
}

/// A fix that marks a whole file makes it code that is the doc, as long as the file
/// holds nothing like a marker and the marker can stand where it goes
pub proof fn law_marked_file_matches(
    s: Seq<char>,
    doc: Seq<char>,
    doc_options: Seq<OptionModel>,
)
    requires
        !text::occurs(s, markers::MARKER_PREFIX@),
        s != "---"@,
        !markers::continues(lines::split(s, '\n'), edit_laws::lines_before_marker(s)),
        0 < lightbulb::newlines_at_end(doc) <= usize::MAX,
        edit_laws::fit_lines(doc_options),
        all_on(doc_options, OptionSide::Doc),
        lightbulb::whole_file_plan_spec(doc, s) matches Ok(Some(fixes)) && can_fix(
            edits::mark_file_spec(s, doc_options),
            None,
            edits::shebang_ended(s),
            fixes.drop_first(),
            doc_options,
        ),
    ensures
        ({
            let fixes = lightbulb::whole_file_plan_spec(doc, s)->Ok_0->0;
            edits::apply_spec(s, None, PlanModel { fixes, doc_options }) matches Ok(result)
                && marks_code(result, None, doc, Seq::empty(), doc_options)
        }),
{
    let code = repo::whole_lines(s);
    let (fixed, normalizing) = lightbulb::normalize_spec(doc, code);
    let fixes = lightbulb::whole_file_plan_spec(doc, s)->Ok_0->0;
    let start = edits::mark_file_spec(s, doc_options);
    assert(fixes =~= seq![FixModel::MarkFile] + normalizing);
    assert(fixes.drop_first() =~= normalizing);
    assert(fixed == doc);
    lemma_no_markers(s);
    edit_laws::law_marked_file_reads_back(s, doc_options);
    let marked = edits::shebang_ended(s);
    lemma_shebang_ended(s);
    assert(marks(start, None, doc_options, marked));
    lemma_normalized(doc, None, marked);
    law_fixed_code_reads_back(start, None, doc_options, marked, normalizing, doc_options);
    lemma_fixes_after_marking(s, normalizing, doc_options);
    let result = edits::apply_fixes_spec(s, None, fixes, doc_options)->Ok_0;
    assert(edits::adds_marker(fixes[0]));
    assert(edits::options_placed(fixes));
    lemma_all_on(doc_options, OptionSide::Doc, OptionSide::Repo);
    assert(marks(result, None, doc_options, after_fixes(marked, normalizing)));
}

/// A line end after a shebang line makes nothing a marker and changes no line
proof fn lemma_shebang_ended(s: Seq<char>)
    requires
        !text::occurs(s, markers::MARKER_PREFIX@),
        s != "---"@,
    ensures
        !text::occurs(edits::shebang_ended(s), markers::MARKER_PREFIX@),
        repo::whole_lines(edits::shebang_ended(s)) == repo::whole_lines(s),
        edits::shebang_ended(s) != "---"@,
{
    if edits::is_bare_shebang(s) {
        let whole = edits::shebang_ended(s);
        reveal_strlit("\n");
        reveal_strlit("#!");
        reveal_strlit("---");
        edit_laws::lemma_shebang_has_no_marker(s);
        lemma_no_markers(s);
        edit_laws::lemma_bare_shebang(s);
        assert(whole[0] == s.take(2)[0]);
        assert("#!"@[0] == '#');
    }
}

/// A text that holds nothing like a marker marks nothing
proof fn lemma_no_markers(s: Seq<char>)
    requires
        !text::occurs(s, markers::MARKER_PREFIX@),
    ensures
        markers::markers_spec(s).file is None,
{
    rewrite_laws::lemma_split_has_no_markers(s);
    edit_laws::lemma_scan_skips(
        lines::split(s, '\n'),
        bytes::byte_len(s),
        0,
        lines::split(s, '\n').len() as int,
        edit_laws::empty_scan(),
    );
}

} // verus!
