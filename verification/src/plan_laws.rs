//! When there is a plan that makes code match a block, and what it is.

use crate::apply;
use crate::bytes;
use crate::lightbulb::CandidateModel;
use crate::lightbulb::FixModel;
use crate::lightbulb::PlanModel;
use crate::lightbulb;
use crate::lines;
use crate::markers::MarkersModel;
use crate::markers;
use crate::matching;
use crate::numbers;
use crate::repo;
use crate::text::CharClass;
use crate::text;
use vstd::prelude::*;

verus! {

// ---------------------------------------------------------------------------
// Dashes and newlines
// ---------------------------------------------------------------------------

/// The fixes for code that differs from the doc in its leading dashes and in how many
/// newlines it ends with
pub open spec fn whitespace_fixes(
    doc_dashes: bool,
    doc_newlines: nat,
    code_dashes: bool,
    code_newlines: nat,
) -> Seq<FixModel> {
    (if doc_dashes && !code_dashes {
        seq![FixModel::AddDashes]
    } else if !doc_dashes && code_dashes {
        seq![FixModel::RemoveDashes]
    } else {
        Seq::empty()
    }) + (if doc_newlines != code_newlines {
        seq![
            FixModel::TrailingNewline {
                wanted_newlines: doc_newlines,
                had_newlines: code_newlines,
            },
        ]
    } else {
        Seq::empty()
    })
}

proof fn lemma_whitespace(
    body: Seq<char>,
    doc_dashes: bool,
    doc_newlines: nat,
    code_dashes: bool,
    code_newlines: nat,
)
    requires
        lightbulb::is_plain(body),
    ensures
        lightbulb::normalize_spec(
            lightbulb::dressed(body, doc_dashes, doc_newlines),
            lightbulb::dressed(body, code_dashes, code_newlines),
        ) == (
            lightbulb::dressed(body, doc_dashes, doc_newlines),
            whitespace_fixes(doc_dashes, doc_newlines, code_dashes, code_newlines),
        ),
{
    let dashes = "---\n"@;
    reveal_strlit("---\n");
    let doc = lightbulb::dressed(body, doc_dashes, doc_newlines);
    let code = lightbulb::dressed(body, code_dashes, code_newlines);
    lightbulb::law_normalize(body, doc_dashes, doc_newlines, code_dashes, code_newlines);
    lightbulb::lemma_dashes(body, doc_newlines);
    lightbulb::lemma_dashes(body, code_newlines);
    let none = Seq::<char>::empty();
    assert(none + body + lightbulb::newlines(doc_newlines) =~= body + lightbulb::newlines(
        doc_newlines,
    ));
    assert(none + body + lightbulb::newlines(code_newlines) =~= body + lightbulb::newlines(
        code_newlines,
    ));
    assert((dashes + body + lightbulb::newlines(doc_newlines)).take(4) =~= dashes);
    assert((dashes + body + lightbulb::newlines(code_newlines)).take(4) =~= dashes);
    assert(dashes.is_prefix_of(doc) == doc_dashes);
    assert(dashes.is_prefix_of(code) == code_dashes);
    lightbulb::lemma_newlines_at_end(body, doc_newlines);
    lightbulb::lemma_newlines_at_end(body, code_newlines);
    lightbulb::lemma_newlines_at_end(dashes + body, doc_newlines);
    lightbulb::lemma_newlines_at_end(dashes + body, code_newlines);
    assert(code.skip(4) =~= body + lightbulb::newlines(code_newlines) || !code_dashes);
    assert(dashes + (body + lightbulb::newlines(code_newlines)) =~= dashes + body
        + lightbulb::newlines(code_newlines));
    let (dashed, first) = lightbulb::dashes_spec(doc, code);
    assert(lightbulb::newlines_at_end(dashed) == code_newlines);
    assert(lightbulb::normalize_spec(doc, code).1 =~= whitespace_fixes(
        doc_dashes,
        doc_newlines,
        code_dashes,
        code_newlines,
    ));
}

/// Marked code without placeholders, and with no options that change it, that differs from
/// a block only in its leading dashes or the newlines at its end, has a plan that makes
/// these agree; code that is the block already has none
pub proof fn law_plan_for_marked_code(
    module: Seq<char>,
    candidate: CandidateModel,
    body: Seq<char>,
    doc_dashes: bool,
    doc_newlines: nat,
    code_dashes: bool,
    code_newlines: nat,
)
    requires
        lightbulb::is_plain(body),
        candidate.marked_code matches Some(code) && code.content == lightbulb::dressed(
            body,
            code_dashes,
            code_newlines,
        ) && code.placeholders.len() == 0 && code.options.len() == 0 && code.doc_options.len() == 0,
        doc_dashes != code_dashes || doc_newlines != code_newlines,
    ensures
        lightbulb::plan_for_spec(
            module,
            lightbulb::dressed(body, doc_dashes, doc_newlines),
            candidate,
        ) == Ok::<_, Seq<char>>(
            Some(
                PlanModel {
                    fixes: whitespace_fixes(doc_dashes, doc_newlines, code_dashes, code_newlines),
                    doc_options: Seq::empty(),
                },
            ),
        ),
{
    let code = candidate.marked_code->0;
    let doc = lightbulb::dressed(body, doc_dashes, doc_newlines);
    lemma_whitespace(body, doc_dashes, doc_newlines, code_dashes, code_newlines);
    assert(!apply::shapes(code.options));
    assert(matching::used_in(code.placeholders, doc).len() == 0);
    let fixes = whitespace_fixes(doc_dashes, doc_newlines, code_dashes, code_newlines);
    assert(Seq::<FixModel>::empty() + fixes =~= fixes);
    assert(fixes.len() > 0);
}

/// Whether a file can get markers, and has none
pub open spec fn is_unmarked(candidate: CandidateModel) -> bool {
    &&& candidate.marked_code is None
    &&& repo::holds_markers(candidate.file)
    &&& candidate.markers.file is None
    &&& candidate.markers.sections.len() == 0
}

/// A text with its last line ended
proof fn lemma_last_line_ended(body: Seq<char>, dashes: bool, count: nat)
    requires
        lightbulb::is_plain(body),
    ensures
        repo::whole_lines(lightbulb::dressed(body, dashes, count)) == lightbulb::dressed(
            body,
            dashes,
            if count == 0 {
                1
            } else {
                count
            },
        ),
{
    let s = lightbulb::dressed(body, dashes, count);
    if count == 0 {
        assert(lightbulb::newlines(0) =~= Seq::empty());
        assert(s.last() == body.last());
        assert(s.push('\n') =~= lightbulb::dressed(body, dashes, 1));
    } else {
        assert(s.last() == lightbulb::newlines(count).last());
    }
}

/// A file without markers that is the block, but for its leading dashes and the newlines at
/// its end, has a plan that marks it whole and makes these agree
#[verifier::spinoff_prover]
#[verifier::rlimit(60)]
pub proof fn law_plan_for_whole_file(
    module: Seq<char>,
    candidate: CandidateModel,
    body: Seq<char>,
    doc_dashes: bool,
    doc_newlines: nat,
    code_dashes: bool,
    code_newlines: nat,
)
    requires
        lightbulb::is_plain(body),
        is_unmarked(candidate),
        candidate.file_text == lightbulb::dressed(body, code_dashes, code_newlines),
    ensures
        lightbulb::plan_for_spec(
            module,
            lightbulb::dressed(body, doc_dashes, doc_newlines),
            candidate,
        ) == Ok::<_, Seq<char>>(
            Some(
                PlanModel {
                    fixes: seq![FixModel::MarkFile] + whitespace_fixes(
                        doc_dashes,
                        doc_newlines,
                        code_dashes,
                        // Marked, the file's last line ends even if the file doesn't
                        if code_newlines == 0 {
                            1
                        } else {
                            code_newlines
                        },
                    ),
                    doc_options: Seq::empty(),
                },
            ),
        ),
{
    let doc = lightbulb::dressed(body, doc_dashes, doc_newlines);
    let s = candidate.file_text;
    let ends = if code_newlines == 0 {
        1
    } else {
        code_newlines
    };
    let whole = repo::whole_lines(s);
    lemma_last_line_ended(body, code_dashes, code_newlines);
    lemma_whitespace(body, doc_dashes, doc_newlines, code_dashes, ends);
    let fixes = whitespace_fixes(doc_dashes, doc_newlines, code_dashes, ends);
    if whole == doc {
        lemma_whitespace(body, doc_dashes, doc_newlines, doc_dashes, doc_newlines);
        assert(lightbulb::normalize_spec(doc, whole).1 == fixes);
        assert(fixes =~= Seq::empty());
        assert(seq![FixModel::MarkFile] + fixes =~= seq![FixModel::MarkFile]);
    } else {
        let none = Seq::<Seq<char>>::empty();
        assert(matching::used_in(none, doc).len() == 0);
    }
}

// ---------------------------------------------------------------------------
// Parts of files
// ---------------------------------------------------------------------------

/// Whether a line's text starts with `#`
pub open spec fn is_comment_line(line: Seq<char>) -> bool {
    exists|at: int|
        0 <= at < line.len() && #[trigger] line[at] == '#' && forall|i: int|
            0 <= i < at ==> text::is_white(#[trigger] line[i])
}

/// A comment is a line whose first character after any whitespace is `#`
pub proof fn law_comment_lines(line: Seq<char>)
    ensures
        lightbulb::is_comment_spec(line) == is_comment_line(line),
{
    reveal_strlit("#");
    let n = text::span(line, CharClass::White) as int;
    text::lemma_span(line, CharClass::White);
    let rest = line.skip(n);
    if lightbulb::is_comment_spec(line) {
        assert(rest.take(1)[0] == '#');
        assert(line[n] == '#');
        assert forall|i: int| 0 <= i < n implies text::is_white(#[trigger] line[i]) by {
            assert(CharClass::White.has(line[i]));
        }
    }
    if is_comment_line(line) {
        let at = choose|at: int|
            0 <= at < line.len() && #[trigger] line[at] == '#' && forall|i: int|
                0 <= i < at ==> text::is_white(#[trigger] line[i]);
        assert(!text::is_white('#'));
        text::lemma_span_is(line, CharClass::White, at);
        assert(rest[0] == '#');
        assert(rest.take(1) =~= "#"@);
    }
}

/// Lines that aren't comments are compared one after the other
proof fn lemma_consecutive(list: Seq<Seq<char>>, skip: bool, from: int, count: int) -> (q: int)
    requires
        0 <= from,
        0 < count,
        from + count <= list.len(),
        skip ==> forall|i: int|
            from <= i < from + count ==> !lightbulb::is_comment_spec(#[trigger] list[i]),
    ensures
        0 <= q,
        q + count <= lightbulb::compared(list, skip).len(),
        forall|k: int|
            0 <= k < count ==> #[trigger] lightbulb::compared(list, skip)[q + k] == from + k,
    decreases list.len(),
{
    let all = lightbulb::compared(list, skip);
    let head = list.drop_last();
    let before = lightbulb::compared(head, skip);
    if from + count < list.len() {
        assert forall|i: int| skip && from <= i < from + count implies !lightbulb::is_comment_spec(
            #[trigger] head[i],
        ) by {
            assert(head[i] == list[i]);
        }
        let q = lemma_consecutive(head, skip, from, count);
        assert forall|k: int| 0 <= k < count implies #[trigger] all[q + k] == from + k by {
            assert(all[q + k] == before[q + k]);
        }
        q
    } else {
        assert(list[list.len() - 1] == list.last());
        assert(all == before.push(list.len() - 1));
        if count > 1 {
            assert forall|i: int|
                skip && from <= i < from + count - 1 implies !lightbulb::is_comment_spec(
                #[trigger] head[i],
            ) by {
                assert(head[i] == list[i]);
            }
            let q = lemma_consecutive(head, skip, from, count - 1);
            lightbulb::lemma_compared(head, skip);
            // The last of them is the last line compared
            assert(q + count - 1 == before.len()) by {
                assert(before[q + (count - 2)] == from + (count - 2));
                if q + count - 1 < before.len() {
                    assert(before[q + count - 2] < before[q + count - 1]);
                }
            }
            assert forall|k: int| 0 <= k < count implies #[trigger] all[q + k] == from + k by {
                if k < count - 1 {
                    assert(all[q + k] == before[q + k]);
                }
            }
            q
        } else {
            assert(all[before.len() as int] == from);
            before.len() as int
        }
    }
}

proof fn lemma_window_found(
    list: Seq<Seq<char>>,
    indexes: Seq<int>,
    doc_lines: Seq<Seq<char>>,
    p: int,
    q: int,
)
    requires
        0 <= p <= q,
        doc_lines.len() > 0,
        lightbulb::window_at(list, indexes, doc_lines, q),
    ensures
        lightbulb::first_window(list, indexes, doc_lines, p) is Some,
    decreases q - p,
{
    if p < q && !lightbulb::window_at(list, indexes, doc_lines, p) {
        lemma_window_found(list, indexes, doc_lines, p + 1, q);
    }
}

/// Where a block of three lines or more, or of forty bytes or more, stands in an unmarked
/// file line by line, there is a plan to mark lines of it: lines that, without comments
/// when the block has none, are the block's, under a name that no section has
pub proof fn law_plan_for_lines(
    module: Seq<char>,
    doc_lines: Seq<Seq<char>>,
    file_text: Seq<char>,
    markers: MarkersModel,
    from: int,
)
    requires
        doc_lines.len() > 0,
        forall|i: int| 0 <= i < doc_lines.len() ==> !(#[trigger] doc_lines[i]).contains('\n'),
        doc_lines.len() >= 3 || bytes::byte_len(
            lines::join(doc_lines, seq!['\n']).push('\n'),
        ) >= 40,
        0 <= from,
        from + doc_lines.len() <= lines::split(file_text, '\n').len(),
        lines::split(file_text, '\n').subrange(from, from + doc_lines.len()) == doc_lines,
        markers.sections.len() == 0,
    ensures
        ({
            let doc = lines::join(doc_lines, seq!['\n']).push('\n');
            let list = lines::split(file_text, '\n');
            lightbulb::portion_plan_spec(module, doc, file_text, markers) matches Some(fixes)
                && fixes.len() == 1 && (fixes[0] matches FixModel::MarkSection {
                name,
                first_line,
                line_count,
                options,
            } && name == module && 1 <= first_line && first_line + line_count - 1 <= list.len()
                && (options.len() == 0 ==> list.subrange(
                first_line - 1,
                first_line - 1 + line_count,
            ) == doc_lines))
        }),
{
    let joined = lines::join(doc_lines, seq!['\n']);
    let doc = joined.push('\n');
    let list = lines::split(file_text, '\n');
    let n = doc_lines.len() as int;
    assert(apply::without_newline(doc) =~= joined);
    lines::lemma_split_join(doc_lines, '\n');
    assert(lightbulb::doc_lines_of(doc) == doc_lines);
    let skip = !lightbulb::any_comment(doc_lines);
    let indexes = lightbulb::compared(list, skip);
    assert forall|i: int| skip && from <= i < from + n implies !lightbulb::is_comment_spec(
        #[trigger] list[i],
    ) by {
        assert(list.subrange(from, from + n)[i - from] == list[i]);
        assert(doc_lines[i - from] == list[i]);
    }
    let q = lemma_consecutive(list, skip, from, n);
    assert(lightbulb::window_at(list, indexes, doc_lines, q)) by {
        assert forall|k: int| 0 <= k < doc_lines.len() implies list[indexes[q + k]]
            == #[trigger] doc_lines[k] by {
            assert(indexes[q + k] == from + k);
            assert(list.subrange(from, from + n)[k] == list[from + k]);
        }
    }
    lemma_window_found(list, indexes, doc_lines, 0, q);
    lightbulb::lemma_first_window(list, indexes, doc_lines, 0);
    lightbulb::lemma_compared(list, skip);
    let p = lightbulb::first_window(list, indexes, doc_lines, 0)->0;
    let first = indexes[p];
    let last = indexes[p + n - 1];
    lemma_spread(indexes, p, n);
    assert(first <= last);
    assert(!lightbulb::inside_section(markers.sections, first + 1, last + 1));
    let names = markers::section_names(markers.sections);
    assert(names.len() == 0);
    lemma_free_name(names, module);
    if last - first + 1 <= n {
        assert(list.subrange(first, first + n) =~= doc_lines) by {
            assert forall|k: int| 0 <= k < n implies list.subrange(first, first + n)[k]
                == doc_lines[k] by {
                assert(indexes[p + k] == first + k);
                assert(list[indexes[p + k]] == doc_lines[k]);
            }
        }
    }
}

/// Rising indexes are at least as far apart as they are many, and one after the other when
/// they are no further apart
proof fn lemma_spread(indexes: Seq<int>, p: int, n: int)
    requires
        0 <= p,
        0 < n,
        p + n <= indexes.len(),
        forall|i: int, j: int|
            0 <= i < j < indexes.len() ==> #[trigger] indexes[i] < #[trigger] indexes[j],
    ensures
        indexes[p + n - 1] - indexes[p] >= n - 1,
        indexes[p + n - 1] - indexes[p] == n - 1 ==> forall|k: int|
            0 <= k < n ==> #[trigger] indexes[p + k] == indexes[p] + k,
    decreases n,
{
    if n > 1 {
        lemma_spread(indexes, p, n - 1);
        assert(indexes[p + n - 2] < indexes[p + n - 1]);
        if indexes[p + n - 1] - indexes[p] == n - 1 {
            assert forall|k: int| 0 <= k < n implies #[trigger] indexes[p + k] == indexes[p]
                + k by {}
        }
    }
}

/// A module's name that no section has is the one for a new section
proof fn lemma_free_name(names: Seq<Seq<char>>, module: Seq<char>)
    requires
        !names.contains(module),
    ensures
        lightbulb::unused_name(names, module) == module,
{
    assert(module == lightbulb::tried_name(module, 1));
    assert(lightbulb::is_first_unused(names, module, module));
    lightbulb::lemma_unused_name(names, module, module);
}

/// The name for a new section is the module's where no section has it, and otherwise the
/// module's with the first number from 2 on that makes it one no section has
pub proof fn law_new_section_name(names: Seq<Seq<char>>, module: Seq<char>, k: nat)
    requires
        k >= 2,
        names.contains(module),
        forall|j: nat|
            2 <= j < k ==> names.contains(module + seq!['-'] + #[trigger] numbers::decimal_spec(j)),
        !names.contains(module + seq!['-'] + numbers::decimal_spec(k)),
    ensures
        lightbulb::unused_name(names, module) == module + seq!['-'] + numbers::decimal_spec(k),
{
    reveal_strlit("-");
    assert("-"@ =~= seq!['-']);
    let name = module + seq!['-'] + numbers::decimal_spec(k);
    assert(name == lightbulb::tried_name(module, k));
    assert forall|j: nat| 1 <= j < k implies names.contains(
        #[trigger] lightbulb::tried_name(module, j),
    ) by {
        if j >= 2 {
            assert(lightbulb::tried_name(module, j) == module + seq!['-'] + numbers::decimal_spec(
                j,
            ));
        }
    }
    assert(lightbulb::is_first_unused(names, module, name));
    lightbulb::lemma_unused_name(names, module, name);
}

/// Files that can't hold markers, and files marked whole, get no plan to mark them
pub proof fn law_no_plan_to_mark(module: Seq<char>, content: Seq<char>, candidate: CandidateModel)
    requires
        candidate.marked_code is None,
        !repo::holds_markers(candidate.file) || candidate.markers.file is Some,
    ensures
        lightbulb::plan_for_spec(module, content, candidate) == Ok::<_, Seq<char>>(
            None::<PlanModel>,
        ),
{
}

} // verus!
