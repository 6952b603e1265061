//! What holds of what is printed.

use crate::apply;
use crate::check;
use crate::lines;
use crate::numbers;
use crate::repo::ProblemModel;
use crate::report::ClosestCode;
use crate::report::FixOutcome;
use crate::report::LineDiffModel;
use crate::report::OutcomeModel;
use crate::report::SummaryModel;
use crate::report::UnresolvedInModel;
use crate::report::UnresolvedModel;
use crate::report::UnusedModel;
use crate::report;
use crate::text;
use vstd::prelude::*;

verus! {

/// Whether `part` is in `s`
pub open spec fn holds(s: Seq<char>, part: Seq<char>) -> bool {
    exists|before: Seq<char>, after: Seq<char>| s == #[trigger] (before + part + after)
}

proof fn lemma_holds(s: Seq<char>, before: Seq<char>, part: Seq<char>, after: Seq<char>)
    requires
        s == before + part + after,
    ensures
        holds(s, part),
{
}

// ---------------------------------------------------------------------------
// Counts
// ---------------------------------------------------------------------------

/// A count is its number, a space and what is counted, in the singular for one alone
pub proof fn law_plural(count: nat, one: Seq<char>, many: Seq<char>)
    ensures
        count == 1 ==> check::plural_spec(count, one, many) == seq!['1', ' '] + one,
        count != 1 ==> check::plural_spec(count, one, many) == numbers::decimal_spec(count)
            + seq![' '] + many,
{
    reveal_strlit(" ");
    assert(" "@ =~= seq![' ']);
    if count == 1 {
        assert(numbers::decimal_spec(1) =~= seq!['1']);
        assert(check::plural_spec(count, one, many) =~= seq!['1', ' '] + one);
    }
}

/// A difference is told by the lines that differ and by how many more lines the code has.
/// When neither is there, the text differs in something else
pub proof fn law_line_diff_words(diff: LineDiffModel)
    ensures
        ({
            let words = check::line_diff_spec(diff);
            let differ = numbers::decimal_spec(diff.differ) + " of "@ + check::line_count(
                diff.doc_lines,
            ) + " differ"@;
            &&& diff.differ > 0 ==> differ.is_prefix_of(words)
            &&& diff.differ > 0 && diff.extra <= diff.differ ==> words == differ
            &&& diff.extra > diff.differ ==> " more"@.is_suffix_of(words) && holds(
                words,
                numbers::decimal_spec((diff.extra - diff.differ) as nat),
            )
            &&& diff.differ == 0 && diff.extra == 0 ==> words
                == "same lines, but not the same text (line endings or placeholders)"@
        }),
{
    let words = check::line_diff_spec(diff);
    let differ = numbers::decimal_spec(diff.differ) + " of "@ + check::line_count(diff.doc_lines)
        + " differ"@;
    if diff.differ > 0 {
        assert(words.take(differ.len() as int) =~= differ);
    }
    if diff.extra > diff.differ {
        let more = (diff.extra - diff.differ) as nat;
        let number = numbers::decimal_spec(more);
        assert(words.skip(words.len() - " more"@.len()) =~= " more"@);
        if diff.differ == 0 {
            let start = "the code has "@;
            let line = if more == 1 {
                "line"@
            } else {
                "lines"@
            };
            let rest = " "@ + line + " more"@;
            assert(words =~= start + number + rest);
            lemma_holds(words, start, number, rest);
        } else {
            let start = differ + ", and the code has "@;
            lemma_holds(words, start, number, " more"@);
        }
    }
}

// ---------------------------------------------------------------------------
// Lists
// ---------------------------------------------------------------------------

/// Each block to resolve is printed after those before it, with its reference, its place,
/// the closest code and, when there is a fix, its steps in turn
pub proof fn law_unresolved_words(before: Seq<UnresolvedModel>, block: UnresolvedModel)
    ensures
        check::all_unresolved_words(Seq::empty()) == Seq::<char>::empty(),
        check::all_unresolved_words(before.push(block)) == check::all_unresolved_words(before)
            + check::unresolved_words(block),
        ({
            let words = check::unresolved_words(block);
            &&& holds(words, block.reference)
            &&& holds(words, block.location)
            &&& block.closest matches Some(code) ==> holds(words, check::closest_spec(code))
            &&& block.fix matches Some(steps) ==> holds(words, lines::join(steps, ", then "@))
        }),
{
    reveal_strlit("");
    assert(""@ =~= Seq::<char>::empty());
    assert(before.push(block).drop_last() =~= before);
    let words = check::unresolved_words(block);
    let start = "  ✗ "@;
    let middle = "\n      doc:     "@;
    let then = "\n      closest: "@;
    let told = match block.closest {
        Some(code) => check::closest_spec(code) + "\n"@,
        None => "nothing in the repo resembles it\n"@,
    };
    let fixed = "      fix:     `asadoc fix "@ + block.reference + "` would "@;
    let fix = match block.fix {
        Some(steps) => fixed + lines::join(steps, ", then "@) + "\n"@,
        None => Seq::empty(),
    };
    let after = middle + block.location + then + told + fix;
    assert(words =~= start + block.reference + after);
    lemma_holds(words, start, block.reference, after);
    assert(words =~= (start + block.reference + middle) + block.location + (then + told + fix));
    lemma_holds(words, start + block.reference + middle, block.location, then + told + fix);
    let head = start + block.reference + middle + block.location + then;
    if let Some(code) = block.closest {
        assert(words =~= head + check::closest_spec(code) + ("\n"@ + fix));
        lemma_holds(words, head, check::closest_spec(code), "\n"@ + fix);
    }
    if let Some(steps) = block.fix {
        let joined = lines::join(steps, ", then "@);
        assert(words =~= (head + told + fixed) + joined + "\n"@);
        lemma_holds(words, head + told + fixed, joined, "\n"@);
    }
}

/// Each assembly with blocks to resolve is printed after those before it, under its title
pub proof fn law_assemblies_words(
    before: Seq<UnresolvedInModel>,
    last: UnresolvedInModel,
    styled: bool,
)
    ensures
        check::all_assemblies_words(Seq::empty(), styled) == Seq::<char>::empty(),
        check::all_assemblies_words(before.push(last), styled) == check::all_assemblies_words(
            before,
            styled,
        ) + check::heading_spec(last.title, last.path, styled) + check::all_unresolved_words(
            last.blocks,
        ),
        holds(check::heading_spec(last.title, last.path, styled), last.title),
        last.path.len() > 0 ==> holds(
            check::heading_spec(last.title, last.path, styled),
            last.path,
        ),
{
    reveal_strlit("");
    assert(""@ =~= Seq::<char>::empty());
    assert(before.push(last).drop_last() =~= before);
    let heading = check::heading_spec(last.title, last.path, styled);
    let blocks = check::all_unresolved_words(last.blocks);
    assert(check::all_assemblies_words(before, styled) + (heading + blocks)
        =~= check::all_assemblies_words(before, styled) + heading + blocks);
    let start = if styled {
        "\n\u{1b}[1;4m"@
    } else {
        "\n"@
    };
    let middle = if styled {
        "\u{1b}[0m"@
    } else {
        ""@
    };
    let end = if styled {
        "\n"@
    } else {
        "\n"@ + check::underline(last.title.len()) + "\n"@
    };
    let aside = check::aside_spec(last.path);
    assert(heading =~= start + last.title + (middle + aside + end));
    lemma_holds(heading, start, last.title, middle + aside + end);
    if last.path.len() > 0 {
        assert(heading =~= (start + last.title + middle + "  ("@) + last.path + (")"@ + end));
        lemma_holds(heading, start + last.title + middle + "  ("@, last.path, ")"@ + end);
    }
}

/// A title is underlined by as many characters as it has
pub proof fn law_underline(length: nat)
    ensures
        check::underline(length).len() == length,
        forall|i: int| 0 <= i < length ==> #[trigger] check::underline(length)[i] == '─',
    decreases length,
{
    reveal_strlit("");
    reveal_strlit("─");
    if length > 0 {
        law_underline((length - 1) as nat);
    }
}

/// Nothing is printed of unused code when there is none. Otherwise each piece is printed
/// after those before it, with its name
pub proof fn law_unused_words(before: Seq<UnusedModel>, code: UnusedModel, styled: bool)
    ensures
        check::all_unused_words(Seq::empty(), styled) == Seq::<char>::empty(),
        holds(check::all_unused_words(before.push(code), styled), check::unused_words(code)),
        check::unused_lines(before.push(code)) == check::unused_lines(before)
            + check::unused_words(code),
        holds(check::unused_words(code), code.name),
        code.closest matches Some((reference, diff)) ==> holds(
            check::unused_words(code),
            reference + " ("@ + check::line_diff_spec(diff) + ")"@,
        ),
{
    reveal_strlit("");
    assert(""@ =~= Seq::<char>::empty());
    let all = before.push(code);
    assert(all.drop_last() =~= before);
    let words = check::unused_words(code);
    let heading = check::heading_spec("Marked code that no doc block matches"@, ""@, styled);
    let end = "  If the docs no longer show it, remove its markers.\n"@;
    let printed = check::all_unused_words(all, styled);
    let start = heading + check::unused_lines(before);
    assert(printed =~= start + words + end);
    lemma_holds(printed, start, words, end);
    let middle = "\n      closest doc block: "@;
    let told = match code.closest {
        Some((reference, diff)) => reference + " ("@ + check::line_diff_spec(diff) + ")\n"@,
        None => "none resembles it\n"@,
    };
    assert(words =~= "  ! "@ + code.name + (middle + told));
    lemma_holds(words, "  ! "@, code.name, middle + told);
    if let Some((reference, diff)) = code.closest {
        reveal_strlit(")\n");
        reveal_strlit(")");
        reveal_strlit("\n");
        let part = reference + " ("@ + check::line_diff_spec(diff) + ")"@;
        let head = "  ! "@ + code.name + middle;
        assert(words =~= head + part + "\n"@);
        lemma_holds(words, head, part, "\n"@);
    }
}

/// Nothing is printed of stale ignored content when there is none. Otherwise each is
/// printed after those before it, with its reason and its text
pub proof fn law_stale_words(
    before: Seq<(Seq<char>, Seq<char>)>,
    last: (Seq<char>, Seq<char>),
    styled: bool,
)
    ensures
        check::stale_words(Seq::empty(), styled) == Seq::<char>::empty(),
        holds(
            check::stale_words(before.push(last), styled),
            check::stale_lines(before.push(last)),
        ),
        check::stale_lines(before.push(last)) == check::stale_lines(before) + ("  - "@ + last.0
            + ": "@ + last.1 + "\n"@),
{
    reveal_strlit("");
    assert(""@ =~= Seq::<char>::empty());
    let all = before.push(last);
    assert(all.drop_last() =~= before);
    assert(check::stale_lines(all) =~= check::stale_lines(before) + ("  - "@ + last.0 + ": "@
        + last.1 + "\n"@));
    let heading = check::heading_spec(
        "Ignored content that no doc block has anymore"@,
        ""@,
        styled,
    );
    let end =
        "  Delete its files from the ignore directory, or remove it in `asadoc serve`.\n"@;
    lemma_holds(check::stale_words(all, styled), heading, check::stale_lines(all), end);
}

/// Nothing is printed of problems when there is none. Otherwise each is printed after
/// those before it, with its file and its message
pub proof fn law_problem_words(before: Seq<ProblemModel>, last: ProblemModel, styled: bool)
    ensures
        check::problem_words(Seq::empty(), styled) == Seq::<char>::empty(),
        holds(
            check::problem_words(before.push(last), styled),
            check::problem_lines(before.push(last)),
        ),
        check::problem_lines(before.push(last)) == check::problem_lines(before) + ("  ! "@
            + last.file + ": "@ + last.message + "\n"@),
{
    reveal_strlit("");
    assert(""@ =~= Seq::<char>::empty());
    let all = before.push(last);
    assert(all.drop_last() =~= before);
    assert(check::problem_lines(all) =~= check::problem_lines(before) + ("  ! "@ + last.file
        + ": "@ + last.message + "\n"@));
    let heading = check::heading_spec("Markers that can't be read"@, ""@, styled);
    let words = check::problem_words(all, styled);
    assert(words =~= heading + check::problem_lines(all) + ""@);
    lemma_holds(words, heading, check::problem_lines(all), ""@);
}

// ---------------------------------------------------------------------------
// Verdicts
// ---------------------------------------------------------------------------

/// Whether words start with a check mark
pub open spec fn is_good_news(words: Seq<char>) -> bool {
    words.len() > 0 && words[0] == '✓'
}

/// Whether words start with a cross
pub open spec fn is_bad_news(words: Seq<char>) -> bool {
    words.len() > 0 && words[0] == '✗'
}

/// The all-clear is given exactly when no block is left, no code is unused and every
/// marker can be read
pub proof fn law_all_clear(summary: SummaryModel)
    requires
        summary.resolved + summary.ignored <= summary.total,
    ensures
        ({
            let words = check::next_steps_words(summary);
            (words.len() > 1 && words[0] == '\n' && words[1] == '✓') == (summary.total
                == summary.resolved + summary.ignored && summary.unused.len() == 0
                && summary.problems.len() == 0)
        }),
{
    let words = check::next_steps_words(summary);
    reveal_strlit("\n✓ Every doc code block matches marked code or is ignored.\n");
    reveal_strlit("\n");
    reveal_strlit("");
    reveal_strlit(
        "Resolve each ✗ block: make repo code match it, or ignore it if it doesn't come from this repo.\n",
    );
    reveal_strlit("  asadoc check <block>   how a block differs from its closest code\n");
    if !report::summary_ok(summary) {
        assert(words[1] == 'R' || words[1] == ' ');
    }
}

/// What comes out well is printed with a check mark first, and the rest with a cross
pub proof fn law_outcome_words(outcome: OutcomeModel)
    ensures
        outcome is Ignored || outcome is Resolved || outcome is CodeMatches ==> is_good_news(
            check::outcome_words(outcome),
        ),
        !(outcome is Ignored || outcome is Resolved || outcome is CodeMatches) ==> is_bad_news(
            check::outcome_words(outcome),
        ),
{
    reveal_strlit("✓ ");
    reveal_strlit("✗ ");
    let words = check::outcome_words(outcome);
    assert(words[0] == '✓' || words[0] == '✗');
}

/// The words on how many blocks are left, from the number of those that match on
pub open spec fn left_words(resolved: nat, ignored: nat, left: nat) -> Seq<char> {
    numbers::decimal_spec(resolved) + " match marked code in this repo, "@
        + numbers::decimal_spec(ignored) + " are ignored, "@ + numbers::decimal_spec(left) + (
    if left == 1 {
        " is"@
    } else {
        " are"@
    }) + " still to resolve.\n"@
}

proof fn lemma_regrouped(
    start: Seq<char>,
    a: Seq<char>,
    b: Seq<char>,
    c: Seq<char>,
    d: Seq<char>,
    e: Seq<char>,
    f: Seq<char>,
    g: Seq<char>,
)
    ensures
        start + a + b + c + d + e + f + g == start + (a + b + c + d + e + f + g),
{
    assert(start + a + b + c + d + e + f + g =~= start + (a + b + c + d + e + f + g));
}

/// A summary starts with where the docs are and how many blocks there are, and tells how
/// many match, are ignored and are left
pub proof fn law_counts_words(summary: SummaryModel)
    requires
        summary.resolved + summary.ignored <= summary.total,
    ensures
        check::counts_words(summary) == "Docs: "@ + summary.docs + "\n"@ + check::plural_spec(
            summary.total,
            "doc code block"@,
            "doc code blocks"@,
        ) + ": "@ + left_words(
            summary.resolved,
            summary.ignored,
            (summary.total - summary.resolved - summary.ignored) as nat,
        ),
{
    let left = (summary.total - summary.resolved - summary.ignored) as nat;
    let start = "Docs: "@ + summary.docs + "\n"@ + check::plural_spec(
        summary.total,
        "doc code block"@,
        "doc code blocks"@,
    ) + ": "@;
    assert(report::open_spec(summary) == left);
    lemma_regrouped(
        start,
        numbers::decimal_spec(summary.resolved),
        " match marked code in this repo, "@,
        numbers::decimal_spec(summary.ignored),
        " are ignored, "@,
        numbers::decimal_spec(left),
        if left == 1 {
            " is"@
        } else {
            " are"@
        },
        " still to resolve.\n"@,
    );
}

/// A summary is its counts, each of its parts in turn, and what to do next
pub proof fn law_summary_words(summary: SummaryModel, styled: bool)
    ensures
        ({
            let words = check::summary_words(summary, styled);
            &&& check::counts_words(summary).is_prefix_of(words)
            &&& check::next_steps_words(summary).is_suffix_of(words)
            &&& holds(words, check::all_assemblies_words(summary.unresolved, styled))
            &&& holds(words, check::all_unused_words(summary.unused, styled))
            &&& holds(words, check::stale_words(summary.stale_ignored, styled))
            &&& holds(words, check::problem_words(summary.problems, styled))
        }),
{
    lemma_parts(
        check::counts_words(summary),
        check::all_assemblies_words(summary.unresolved, styled),
        check::all_unused_words(summary.unused, styled),
        check::stale_words(summary.stale_ignored, styled),
        check::problem_words(summary.problems, styled),
        check::next_steps_words(summary),
    );
}

/// Parts one after the other
proof fn lemma_parts(
    a: Seq<char>,
    b: Seq<char>,
    c: Seq<char>,
    d: Seq<char>,
    e: Seq<char>,
    f: Seq<char>,
)
    ensures
        a.is_prefix_of(a + b + c + d + e + f),
        f.is_suffix_of(a + b + c + d + e + f),
        holds(a + b + c + d + e + f, b),
        holds(a + b + c + d + e + f, c),
        holds(a + b + c + d + e + f, d),
        holds(a + b + c + d + e + f, e),
{
    let words = a + b + c + d + e + f;
    assert(words.take(a.len() as int) =~= a);
    assert(words.skip(words.len() - f.len()) =~= f);
    assert(words =~= a + b + (c + d + e + f));
    lemma_holds(words, a, b, c + d + e + f);
    assert(words =~= (a + b) + c + (d + e + f));
    lemma_holds(words, a + b, c, d + e + f);
    assert(words =~= (a + b + c) + d + (e + f));
    lemma_holds(words, a + b + c, d, e + f);
    lemma_holds(words, a + b + c + d, e, f);
}

/// A closest code is printed with its name or file first, and with how it differs or
/// which lines it is
pub proof fn law_closest_words(code: ClosestCode)
    ensures
        ({
            let words = check::closest_spec(code);
            match code {
                ClosestCode::Marked { name, diff } => (name + " (marked; "@
                    + check::line_diff_spec(diff)).is_prefix_of(words),
                ClosestCode::UnmarkedFile { file, diff } => (file + " (not marked; "@
                    + numbers::decimal_spec(diff.differ) + " of the block's "@
                    + numbers::decimal_spec(diff.doc_lines)).is_prefix_of(words),
                ClosestCode::Lines { file, from, to } => (file + ", lines "@
                    + numbers::decimal_spec(from) + "-"@ + numbers::decimal_spec(
                    to,
                )).is_prefix_of(words),
            }
        }),
{
    let words = check::closest_spec(code);
    match code {
        ClosestCode::Marked { name, diff } => {
            let part = name + " (marked; "@ + check::line_diff_spec(diff);
            assert(words.take(part.len() as int) =~= part);
        },
        ClosestCode::UnmarkedFile { file, diff } => {
            let part = file + " (not marked; "@ + numbers::decimal_spec(diff.differ)
                + " of the block's "@ + numbers::decimal_spec(diff.doc_lines);
            assert(words.take(part.len() as int) =~= part);
        },
        ClosestCode::Lines { file, from, to } => {
            let part = file + ", lines "@ + numbers::decimal_spec(from) + "-"@
                + numbers::decimal_spec(to);
            assert(words.take(part.len() as int) =~= part);
        },
    }
}

/// A fix that is done or makes a block match is told with a check mark last, and another
/// with a cross. Each step that was made is told before
pub proof fn law_fix_words(outcome: FixOutcome, reference: Seq<char>)
    ensures
        ({
            let words = check::fix_words(outcome, reference);
            match outcome {
                FixOutcome::AlreadyDone => is_good_news(words),
                FixOutcome::NoFix => is_bad_news(words),
                FixOutcome::Applied { steps, resolved, .. } => {
                    let told = check::step_lines(text::views(steps@));
                    &&& told.is_prefix_of(words)
                    &&& words.len() > told.len()
                    &&& words[told.len() as int] == if resolved {
                        '✓'
                    } else {
                        '✗'
                    }
                },
            }
        }),
        holds(check::fix_words(outcome, reference), reference),
{
    reveal_strlit("✓ ");
    reveal_strlit("✗ ");
    let words = check::fix_words(outcome, reference);
    match outcome {
        FixOutcome::AlreadyDone => {
            lemma_holds(words, "✓ "@, reference, " is already resolved or ignored\n"@);
        },
        FixOutcome::NoFix => {
            let rest = ": there's no simple fix for it; see how it differs with `asadoc check "@
                + reference + "`\n"@;
            assert(words =~= "✗ "@ + reference + rest);
            lemma_holds(words, "✗ "@, reference, rest);
        },
        FixOutcome::Applied { file, steps, resolved } => {
            let told = check::step_lines(text::views(steps@));
            assert(words.take(told.len() as int) =~= told);
            if resolved {
                lemma_holds(words, told + "✓ "@, reference, ": resolved\n"@);
            } else {
                let rest = ": changed "@ + file@ + ", but it still doesn't match; see `asadoc check "@
                    + reference + "`\n"@;
                assert(words =~= (told + "✗ "@) + reference + rest);
                lemma_holds(words, told + "✗ "@, reference, rest);
            }
        },
    }
}

/// Each step is told on a line of its own, after those before it
pub proof fn law_step_lines(before: Seq<Seq<char>>, step: Seq<char>)
    ensures
        check::step_lines(Seq::empty()) == Seq::<char>::empty(),
        check::step_lines(before.push(step)) == check::step_lines(before) + "  "@ + step + "\n"@,
{
    reveal_strlit("");
    assert(""@ =~= Seq::<char>::empty());
    assert(before.push(step).drop_last() =~= before);
}

/// Each placeholder is told with its value, after those before it
pub proof fn law_value_lines(before: Seq<(Seq<char>, Seq<char>)>, last: (Seq<char>, Seq<char>))
    ensures
        check::value_lines(Seq::empty()) == Seq::<char>::empty(),
        check::value_lines(before.push(last)) == check::value_lines(before) + "    "@ + last.0
            + " = "@ + apply::debug_text(last.1) + "\n"@,
{
    reveal_strlit("");
    assert(""@ =~= Seq::<char>::empty());
    assert(before.push(last).drop_last() =~= before);
}

/// What a check found is told with the name it was asked for and all it found of it
pub proof fn law_outcome_told(outcome: OutcomeModel)
    ensures
        ({
            let words = check::outcome_words(outcome);
            match outcome {
                OutcomeModel::NotFound { name } => holds(words, name),
                OutcomeModel::Ignored { reference, reason } => holds(
                    words,
                    reference + ": ignored ("@ + reason,
                ),
                OutcomeModel::Resolved { reference, codes, values } => holds(
                    words,
                    reference + ": resolved (matches "@ + lines::join(codes, "; "@),
                ) && check::value_lines(values).is_suffix_of(words),
                OutcomeModel::Unmatched { reference, location, closest, sides, .. } => holds(
                    words,
                    reference + " ("@ + location,
                ) && holds(words, check::closest_spec(closest)) && check::diff_words(
                    sides,
                ).is_suffix_of(words),
                OutcomeModel::Alone { reference, location, content } => holds(
                    words,
                    reference + " ("@ + location,
                ) && holds(words, content),
                OutcomeModel::Mismatch { reference, location, code, sides } => holds(
                    words,
                    reference + " ("@ + location,
                ) && holds(words, code) && check::diff_words(sides).is_suffix_of(words),
                OutcomeModel::DocOptionsDontFit { reference, code } => holds(words, reference)
                    && holds(words, code),
                OutcomeModel::CodeMatches { name, blocks } => holds(
                    words,
                    name + ": matches "@ + lines::join(blocks, ", "@),
                ),
                OutcomeModel::CodeUnmatched { name, closest } => holds(words, name) && (
                closest matches Some((reference, location, sides)) ==> holds(
                    words,
                    reference + " ("@ + location,
                ) && check::diff_words(sides).is_suffix_of(words)),
            }
        }),
{
    let words = check::outcome_words(outcome);
    match outcome {
        OutcomeModel::NotFound { name } => {
            lemma_holds(words, "✗ "@, name, ": no doc block or marked code by that name\n"@);
        },
        OutcomeModel::Ignored { reference, reason } => {
            let part = reference + ": ignored ("@ + reason;
            assert(words =~= "✓ "@ + part + ")\n"@);
            lemma_holds(words, "✓ "@, part, ")\n"@);
        },
        OutcomeModel::Resolved { reference, codes, values } => {
            let part = reference + ": resolved (matches "@ + lines::join(codes, "; "@);
            let told = check::value_lines(values);
            assert(words =~= "✓ "@ + part + (")\n"@ + told));
            lemma_holds(words, "✓ "@, part, ")\n"@ + told);
            assert(words.skip(words.len() - told.len()) =~= told);
        },
        OutcomeModel::Unmatched { reference, location, closest, fix, sides } => {
            lemma_unmatched_told(reference, location, closest, fix, check::diff_words(sides));
        },
        OutcomeModel::Alone { reference, location, content } => {
            let part = reference + " ("@ + location;
            let told =
                ": no marked code matches it, and nothing in the repo resembles it. The block:\n----\n"@;
            assert(words =~= "✗ "@ + part + (")"@ + told + content + "----\n"@));
            lemma_holds(words, "✗ "@, part, ")"@ + told + content + "----\n"@);
            lemma_holds(words, check::place_words(reference, location) + told, content, "----\n"@);
        },
        OutcomeModel::Mismatch { reference, location, code, sides } => {
            let part = reference + " ("@ + location;
            let diff = check::diff_words(sides);
            let rest = ": "@ + code + " doesn't match it\n"@ + diff;
            assert(words =~= "✗ "@ + part + (")"@ + rest));
            lemma_holds(words, "✗ "@, part, ")"@ + rest);
            let head = check::place_words(reference, location) + ": "@;
            assert(words =~= head + code + (" doesn't match it\n"@ + diff));
            lemma_holds(words, head, code, " doesn't match it\n"@ + diff);
            assert(words.skip(words.len() - diff.len()) =~= diff);
        },
        OutcomeModel::DocOptionsDontFit { reference, code } => {
            let rest = ": the doc options of "@ + code + " don't fit this block\n"@;
            assert(words =~= "✗ "@ + reference + rest);
            lemma_holds(words, "✗ "@, reference, rest);
            let head = "✗ "@ + reference + ": the doc options of "@;
            lemma_holds(words, head, code, " don't fit this block\n"@);
        },
        OutcomeModel::CodeMatches { name, blocks } => {
            let part = name + ": matches "@ + lines::join(blocks, ", "@);
            assert(words =~= "✓ "@ + part + "\n"@);
            lemma_holds(words, "✓ "@, part, "\n"@);
        },
        OutcomeModel::CodeUnmatched { name, closest } => {
            if let Some((reference, location, sides)) = closest {
                lemma_code_unmatched_told(name, reference, location, check::diff_words(sides));
            } else {
                lemma_holds(
                    words,
                    "✗ "@,
                    name,
                    ": no doc block resembles it; if the docs no longer show it, remove its markers\n"@,
                );
            }
        },
    }
}

proof fn lemma_unmatched_told(
    reference: Seq<char>,
    location: Seq<char>,
    closest: ClosestCode,
    fix: Option<Seq<Seq<char>>>,
    diff: Seq<char>,
)
    ensures
        ({
            let head = check::place_words(reference, location)
                + ": no marked code matches it; the closest is "@ + check::closest_spec(closest)
                + "\n"@;
            let words = match fix {
                Some(steps) => head + "  `asadoc fix "@ + reference + "` would "@
                    + check::steps_words(steps) + "\n"@ + diff,
                None => head + diff,
            };
            &&& holds(words, reference + " ("@ + location)
            &&& holds(words, check::closest_spec(closest))
            &&& diff.is_suffix_of(words)
        }),
{
    let code = check::closest_spec(closest);
    let part = reference + " ("@ + location;
    let told = ": no marked code matches it; the closest is "@;
    let place = check::place_words(reference, location);
    let head = place + told + code + "\n"@;
    let fixed = match fix {
        Some(steps) => "  `asadoc fix "@ + reference + "` would "@ + check::steps_words(steps)
            + "\n"@,
        None => Seq::empty(),
    };
    let words = match fix {
        Some(steps) => head + "  `asadoc fix "@ + reference + "` would "@ + check::steps_words(
            steps,
        ) + "\n"@ + diff,
        None => head + diff,
    };
    assert(words =~= head + fixed + diff);
    assert(place =~= "✗ "@ + part + ")"@);
    lemma_told(part, told, code, fixed, diff);
    assert(words =~= "✗ "@ + part + ")"@ + told + code + "\n"@ + fixed + diff);
}

proof fn lemma_told(
    part: Seq<char>,
    told: Seq<char>,
    code: Seq<char>,
    fixed: Seq<char>,
    diff: Seq<char>,
)
    ensures
        ({
            let words = "✗ "@ + part + ")"@ + told + code + "\n"@ + fixed + diff;
            &&& holds(words, part)
            &&& holds(words, code)
            &&& diff.is_suffix_of(words)
        }),
{
    let words = "✗ "@ + part + ")"@ + told + code + "\n"@ + fixed + diff;
    let rest = ")"@ + told + code + "\n"@ + fixed + diff;
    assert(words =~= "✗ "@ + part + rest);
    lemma_holds(words, "✗ "@, part, rest);
    let head = "✗ "@ + part + ")"@ + told;
    assert(words =~= head + code + ("\n"@ + fixed + diff));
    lemma_holds(words, head, code, "\n"@ + fixed + diff);
    assert(words.skip(words.len() - diff.len()) =~= diff);
}

proof fn lemma_code_unmatched_told(
    name: Seq<char>,
    reference: Seq<char>,
    location: Seq<char>,
    diff: Seq<char>,
)
    ensures
        ({
            let words = "✗ "@ + name + ": no doc block matches it; the closest is "@ + reference
                + " ("@ + location + ")\n"@ + diff;
            &&& holds(words, name)
            &&& holds(words, reference + " ("@ + location)
            &&& diff.is_suffix_of(words)
        }),
{
    let told = ": no doc block matches it; the closest is "@;
    let part = reference + " ("@ + location;
    let words = "✗ "@ + name + told + reference + " ("@ + location + ")\n"@ + diff;
    let rest = told + part + ")\n"@ + diff;
    assert(words =~= "✗ "@ + name + rest);
    lemma_holds(words, "✗ "@, name, rest);
    let head = "✗ "@ + name + told;
    assert(words =~= head + part + (")\n"@ + diff));
    lemma_holds(words, head, part, ")\n"@ + diff);
    assert(words.skip(words.len() - diff.len()) =~= diff);
}

} // verus!
