//! `asadoc check` and `asadoc fix`, in words: the reports `report` builds, as
//! text for people and agents.

use crate::apply;
use crate::engines;
use crate::lines;
use crate::matching::Values;
use crate::numbers;
use crate::repo;
use crate::repo::{Problem, ProblemModel};
use crate::report;
use crate::report::{
    Closest, ClosestCode, FixOutcome, LineDiff, LineDiffModel, Outcome, OutcomeModel, Sides,
    SidesModel, Summary, SummaryModel, UnresolvedBlock, UnresolvedInAssembly, UnresolvedInModel,
    UnresolvedModel, Unused, UnusedModel,
};
use crate::text;
use vstd::prelude::*;

verus! {

// ---------------------------------------------------------------------------
// Words
// ---------------------------------------------------------------------------

/// A count of things
pub open spec fn plural_spec(count: nat, one: Seq<char>, many: Seq<char>) -> Seq<char> {
    numbers::decimal_spec(count) + " "@ + (if count == 1 {
        one
    } else {
        many
    })
}

/// A count of things
pub fn plural(count: usize, one: &str, many: &str) -> (words: String)
    ensures
        words@ == plural_spec(count as nat, one@, many@),
{
    let mut words = numbers::decimal(count);
    words.append(" ");
    words.append(
        if count == 1 {
            one
        } else {
            many
        },
    );
    words
}

/// A count of lines
pub open spec fn line_count(count: nat) -> Seq<char> {
    plural_spec(count, "line"@, "lines"@)
}

/// A line difference, in words
pub open spec fn line_diff_spec(diff: LineDiffModel) -> Seq<char> {
    let more = if diff.extra > diff.differ {
        (diff.extra - diff.differ) as nat
    } else {
        0
    };
    let differing = numbers::decimal_spec(diff.differ) + " of "@ + line_count(diff.doc_lines)
        + " differ"@;
    if diff.differ == 0 && more == 0 {
        "same lines, but not the same text (line endings or placeholders)"@
    } else if diff.differ == 0 {
        "the code has "@ + line_count(more) + " more"@
    } else if more == 0 {
        differing
    } else {
        differing + ", and the code has "@ + numbers::decimal_spec(more) + " more"@
    }
}

/// A line difference, in words
pub fn line_diff(diff: LineDiff) -> (words: String)
    ensures
        words@ == line_diff_spec(diff@),
{
    let more: usize = if diff.extra > diff.differ {
        diff.extra - diff.differ
    } else {
        0
    };
    if diff.differ == 0 && more == 0 {
        return "same lines, but not the same text (line endings or placeholders)".to_owned();
    }
    if diff.differ == 0 {
        let count = plural(more, "line", "lines");
        return text::surround("the code has ", count.as_str(), " more");
    }
    let mut words = numbers::decimal(diff.differ);
    words.append(" of ");
    let total = plural(diff.doc_lines, "line", "lines");
    words.append(total.as_str());
    words.append(" differ");
    if more > 0 {
        words.append(", and the code has ");
        let count = numbers::decimal(more);
        words.append(count.as_str());
        words.append(" more");
    }
    words
}

/// The code closest to a block, in words
pub open spec fn closest_spec(code: ClosestCode) -> Seq<char> {
    match code {
        ClosestCode::Marked { name, diff } => name + " (marked; "@ + line_diff_spec(diff) + ")"@,
        ClosestCode::UnmarkedFile { file, diff } => file + " (not marked; "@
            + numbers::decimal_spec(diff.differ) + " of the block's "@ + numbers::decimal_spec(
            diff.doc_lines,
        ) + " lines aren't in it)"@,
        ClosestCode::Lines { file, from, to } => file + ", lines "@ + numbers::decimal_spec(from)
            + "-"@ + numbers::decimal_spec(to) + " (not marked)"@,
    }
}

/// The code closest to a block, in words
pub fn closest(closest_code: &Closest) -> (words: String)
    ensures
        words@ == closest_spec(closest_code@),
{
    match closest_code {
        Closest::Marked { name, diff } => {
            let mut words = name.clone();
            words.append(" (marked; ");
            let difference = line_diff(*diff);
            words.append(difference.as_str());
            words.append(")");
            words
        },
        Closest::UnmarkedFile { file, diff } => {
            let mut words = file.clone();
            words.append(" (not marked; ");
            let differ = numbers::decimal(diff.differ);
            words.append(differ.as_str());
            words.append(" of the block's ");
            let total = numbers::decimal(diff.doc_lines);
            words.append(total.as_str());
            words.append(" lines aren't in it)");
            words
        },
        Closest::Lines { file, from, to } => {
            let mut words = file.clone();
            words.append(", lines ");
            let first = numbers::decimal(*from);
            words.append(first.as_str());
            words.append("-");
            let last = numbers::decimal(*to);
            words.append(last.as_str());
            words.append(" (not marked)");
            words
        },
    }
}

/// A line under a title of some length
pub open spec fn underline(length: nat) -> Seq<char>
    decreases length,
{
    if length == 0 {
        ""@
    } else {
        underline((length - 1) as nat) + "─"@
    }
}

fn underline_for(title: &str) -> (rule: String)
    ensures
        rule@ == underline(title@.len()),
{
    let length = text::chars_of(title).len();
    let mut rule = "".to_owned();
    let mut i: usize = 0;
    while i < length
        invariant
            i <= length,
            rule@ == underline(i as nat),
        decreases length - i,
    {
        rule.append("─");
        i = i + 1;
    }
    rule
}

/// What follows a title
pub open spec fn aside_spec(aside: Seq<char>) -> Seq<char> {
    if aside.len() == 0 {
        ""@
    } else {
        "  ("@ + aside + ")"@
    }
}

/// A heading
pub open spec fn heading_spec(title: Seq<char>, aside: Seq<char>, styled: bool) -> Seq<char> {
    if styled {
        "\n\u{1b}[1;4m"@ + title + "\u{1b}[0m"@ + aside_spec(aside) + "\n"@
    } else {
        "\n"@ + title + aside_spec(aside) + "\n"@ + underline(title.len()) + "\n"@
    }
}

/// A heading: bold and underlined when printing to a terminal
pub fn heading(title: &str, aside: &str, styled: bool) -> (words: String)
    ensures
        words@ == heading_spec(title@, aside@, styled),
{
    let has_aside = text::chars_of(aside).len() > 0;
    let rest = if has_aside {
        text::surround("  (", aside, ")")
    } else {
        "".to_owned()
    };
    let mut words = if styled {
        text::surround("\n\u{1b}[1;4m", title, "\u{1b}[0m")
    } else {
        let mut plain = "\n".to_owned();
        plain.append(title);
        plain
    };
    words.append(rest.as_str());
    words.append("\n");
    if !styled {
        let rule = underline_for(title);
        words.append(rule.as_str());
        words.append("\n");
    }
    words
}

/// The lines of context around a difference
pub const DIFF_CONTEXT: usize = 3;

/// What a side of a diff is, and how long
pub open spec fn side_label(label: Seq<char>, side: Seq<char>) -> Seq<char> {
    label + ", "@ + line_count(lines::lines_of(side).len())
}

fn label_with_lines(label: &str, side: &str) -> (words: String)
    ensures
        words@ == side_label(label@, side@),
{
    let list = lines::lines(side);
    assert(text::views(list@).len() == list@.len());
    let count = plural(list.len(), "line", "lines");
    text::surround(label, ", ", count.as_str())
}

/// A doc side and a code side, as a diff
pub open spec fn diff_words(sides: SidesModel) -> Seq<char> {
    engines::unified_diff_of(
        sides.doc,
        sides.code,
        side_label(sides.doc_label, sides.doc),
        side_label(sides.code_label, sides.code),
        DIFF_CONTEXT as nat,
    )
}

/// A doc side and a code side, as a diff
pub fn print_diff(sides: &Sides) -> (words: String)
    ensures
        words@ == diff_words(sides@),
{
    let doc_label = label_with_lines(sides.doc_label.as_str(), sides.doc.as_str());
    let code_label = label_with_lines(sides.code_label.as_str(), sides.code.as_str());
    engines::unified_diff(
        sides.doc.as_str(),
        sides.code.as_str(),
        doc_label.as_str(),
        code_label.as_str(),
        DIFF_CONTEXT,
    )
}

/// Steps, one after the other
pub open spec fn steps_words(steps: Seq<Seq<char>>) -> Seq<char> {
    lines::join(steps, ", then "@)
}

// ---------------------------------------------------------------------------
// The whole picture
// ---------------------------------------------------------------------------

/// What is printed of a block still to resolve
pub open spec fn unresolved_words(block: UnresolvedModel) -> Seq<char> {
    let head = "  ✗ "@ + block.reference + "\n      doc:     "@ + block.location
        + "\n      closest: "@;
    let with_closest = match block.closest {
        Some(code) => head + closest_spec(code) + "\n"@,
        None => head + "nothing in the repo resembles it\n"@,
    };
    match block.fix {
        Some(steps) => with_closest + "      fix:     `asadoc fix "@ + block.reference
            + "` would "@ + steps_words(steps) + "\n"@,
        None => with_closest,
    }
}

fn print_unresolved_block(block: &UnresolvedBlock) -> (words: String)
    ensures
        words@ == unresolved_words(block@),
{
    let mut words = "  ✗ ".to_owned();
    words.append(block.reference.as_str());
    words.append("\n      doc:     ");
    words.append(block.location.as_str());
    words.append("\n      closest: ");
    match &block.closest {
        Some(closest_code) => {
            let code = closest(closest_code);
            words.append(code.as_str());
            words.append("\n");
        },
        None => {
            words.append("nothing in the repo resembles it\n");
        },
    }
    if let Some(steps) = &block.fix {
        words.append("      fix:     `asadoc fix ");
        words.append(block.reference.as_str());
        words.append("` would ");
        let joined = lines::join_texts(steps, ", then ");
        words.append(joined.as_str());
        words.append("\n");
    }
    words
}

/// What is printed of some blocks still to resolve
pub open spec fn all_unresolved_words(blocks: Seq<UnresolvedModel>) -> Seq<char>
    decreases blocks.len(),
{
    if blocks.len() == 0 {
        ""@
    } else {
        all_unresolved_words(blocks.drop_last()) + unresolved_words(blocks.last())
    }
}

/// What is printed of the blocks of an assembly still to resolve
pub open spec fn unresolved_in_words(assembly: UnresolvedInModel, styled: bool) -> Seq<char> {
    heading_spec(assembly.title, assembly.path, styled) + all_unresolved_words(assembly.blocks)
}

/// What is printed of the blocks of an assembly still to resolve
pub fn print_unresolved(assembly: &UnresolvedInAssembly, styled: bool) -> (words: String)
    ensures
        words@ == unresolved_in_words(assembly@, styled),
{
    let ghost models = assembly@.blocks;
    let mut blocks = "".to_owned();
    let mut i: usize = 0;
    while i < assembly.blocks.len()
        invariant
            i <= assembly.blocks@.len(),
            models == assembly@.blocks,
            blocks@ == all_unresolved_words(models.take(i as int)),
        decreases assembly.blocks@.len() - i,
    {
        proof {
            assert(models.take(i + 1).drop_last() =~= models.take(i as int));
            assert(models.take(i + 1).last() == assembly.blocks@[i as int]@);
        }
        let block = print_unresolved_block(&assembly.blocks[i]);
        blocks.append(block.as_str());
        i = i + 1;
    }
    assert(models.take(i as int) =~= models);
    let mut words = heading(assembly.title.as_str(), assembly.path.as_str(), styled);
    words.append(blocks.as_str());
    words
}

/// What is printed of all the blocks still to resolve
pub open spec fn all_assemblies_words(unresolved: Seq<UnresolvedInModel>, styled: bool) -> Seq<char>
    decreases unresolved.len(),
{
    if unresolved.len() == 0 {
        ""@
    } else {
        all_assemblies_words(unresolved.drop_last(), styled) + unresolved_in_words(
            unresolved.last(),
            styled,
        )
    }
}

fn print_all_unresolved(unresolved: &Vec<UnresolvedInAssembly>, styled: bool) -> (words: String)
    ensures
        words@ == all_assemblies_words(report::unresolved_in_models(unresolved@), styled),
{
    let ghost models = report::unresolved_in_models(unresolved@);
    let mut words = "".to_owned();
    let mut i: usize = 0;
    while i < unresolved.len()
        invariant
            i <= unresolved@.len(),
            models == report::unresolved_in_models(unresolved@),
            words@ == all_assemblies_words(models.take(i as int), styled),
        decreases unresolved@.len() - i,
    {
        proof {
            assert(models.take(i + 1).drop_last() =~= models.take(i as int));
            assert(models.take(i + 1).last() == unresolved@[i as int]@);
        }
        let assembly = print_unresolved(&unresolved[i], styled);
        words.append(assembly.as_str());
        i = i + 1;
    }
    assert(models.take(i as int) =~= models);
    words
}

/// What is printed of some marked code no block matches
pub open spec fn unused_words(code: UnusedModel) -> Seq<char> {
    let head = "  ! "@ + code.name + "\n      closest doc block: "@;
    match code.closest {
        Some((reference, diff)) => head + reference + " ("@ + line_diff_spec(diff) + ")\n"@,
        None => head + "none resembles it\n"@,
    }
}

fn print_unused_code(code: &Unused) -> (words: String)
    ensures
        words@ == unused_words(code@),
{
    let mut words = "  ! ".to_owned();
    words.append(code.name.as_str());
    words.append("\n      closest doc block: ");
    match &code.closest {
        Some((reference, diff)) => {
            words.append(reference.as_str());
            words.append(" (");
            let difference = line_diff(*diff);
            words.append(difference.as_str());
            words.append(")\n");
        },
        None => {
            words.append("none resembles it\n");
        },
    }
    words
}

/// What is printed of each piece of marked code no block matches
pub open spec fn unused_lines(unused: Seq<UnusedModel>) -> Seq<char>
    decreases unused.len(),
{
    if unused.len() == 0 {
        ""@
    } else {
        unused_lines(unused.drop_last()) + unused_words(unused.last())
    }
}

/// What is printed of the marked code no block matches
pub open spec fn all_unused_words(unused: Seq<UnusedModel>, styled: bool) -> Seq<char> {
    if unused.len() == 0 {
        ""@
    } else {
        heading_spec("Marked code that no doc block matches"@, ""@, styled) + unused_lines(unused)
            + "  If the docs no longer show it, remove its markers.\n"@
    }
}

/// What is printed of the marked code no block matches
pub fn print_unused(unused: &Vec<Unused>, styled: bool) -> (words: String)
    ensures
        words@ == all_unused_words(report::unused_models(unused@), styled),
{
    let ghost models = report::unused_models(unused@);
    assert(models.len() == unused@.len());
    if unused.len() == 0 {
        return "".to_owned();
    }
    let mut codes = "".to_owned();
    let mut i: usize = 0;
    while i < unused.len()
        invariant
            i <= unused@.len(),
            models == report::unused_models(unused@),
            codes@ == unused_lines(models.take(i as int)),
        decreases unused@.len() - i,
    {
        proof {
            assert(models.take(i + 1).drop_last() =~= models.take(i as int));
            assert(models.take(i + 1).last() == unused@[i as int]@);
        }
        let code = print_unused_code(&unused[i]);
        codes.append(code.as_str());
        i = i + 1;
    }
    assert(models.take(i as int) =~= models);
    let mut words = heading("Marked code that no doc block matches", "", styled);
    words.append(codes.as_str());
    words.append("  If the docs no longer show it, remove its markers.\n");
    words
}

/// What is printed of each ignored content no block has anymore
pub open spec fn stale_lines(stale: Seq<(Seq<char>, Seq<char>)>) -> Seq<char>
    decreases stale.len(),
{
    if stale.len() == 0 {
        ""@
    } else {
        stale_lines(stale.drop_last()) + "  - "@ + stale.last().0 + ": "@ + stale.last().1 + "\n"@
    }
}

/// What is printed of the ignored content no block has anymore
pub open spec fn stale_words(stale: Seq<(Seq<char>, Seq<char>)>, styled: bool) -> Seq<char> {
    if stale.len() == 0 {
        ""@
    } else {
        heading_spec("Ignored content that no doc block has anymore"@, ""@, styled) + stale_lines(
            stale,
        )
            + "  Delete its files from the ignore directory, or remove it in `asadoc serve`.\n"@
    }
}

/// What is printed of the ignored content no block has anymore
pub fn print_stale_ignored(stale_ignored: &Vec<(String, String)>, styled: bool) -> (words: String)
    ensures
        words@ == stale_words(repo::pair_views(stale_ignored@), styled),
{
    let ghost models = repo::pair_views(stale_ignored@);
    assert(models.len() == stale_ignored@.len());
    if stale_ignored.len() == 0 {
        return "".to_owned();
    }
    let mut entries = "".to_owned();
    let mut i: usize = 0;
    while i < stale_ignored.len()
        invariant
            i <= stale_ignored@.len(),
            models == repo::pair_views(stale_ignored@),
            entries@ == stale_lines(models.take(i as int)),
        decreases stale_ignored@.len() - i,
    {
        proof {
            assert(models.take(i + 1).drop_last() =~= models.take(i as int));
            assert(models.take(i + 1).last() == (
                stale_ignored@[i as int].0@,
                stale_ignored@[i as int].1@,
            ));
        }
        entries.append("  - ");
        entries.append(stale_ignored[i].0.as_str());
        entries.append(": ");
        entries.append(stale_ignored[i].1.as_str());
        entries.append("\n");
        i = i + 1;
    }
    assert(models.take(i as int) =~= models);
    let mut words = heading("Ignored content that no doc block has anymore", "", styled);
    words.append(entries.as_str());
    words.append(
        "  Delete its files from the ignore directory, or remove it in `asadoc serve`.\n",
    );
    words
}

/// What is printed of each marker that can't be read
pub open spec fn problem_lines(problems: Seq<ProblemModel>) -> Seq<char>
    decreases problems.len(),
{
    if problems.len() == 0 {
        ""@
    } else {
        problem_lines(problems.drop_last()) + "  ! "@ + problems.last().file + ": "@
            + problems.last().message + "\n"@
    }
}

/// What is printed of the markers that can't be read
pub open spec fn problem_words(problems: Seq<ProblemModel>, styled: bool) -> Seq<char> {
    if problems.len() == 0 {
        ""@
    } else {
        heading_spec("Markers that can't be read"@, ""@, styled) + problem_lines(problems)
    }
}

/// What is printed of the markers that can't be read
pub fn print_problems(problems: &Vec<Problem>, styled: bool) -> (words: String)
    ensures
        words@ == problem_words(repo::problem_models(problems@), styled),
{
    let ghost models = repo::problem_models(problems@);
    assert(models.len() == problems@.len());
    if problems.len() == 0 {
        return "".to_owned();
    }
    let mut entries = "".to_owned();
    let mut i: usize = 0;
    while i < problems.len()
        invariant
            i <= problems@.len(),
            models == repo::problem_models(problems@),
            entries@ == problem_lines(models.take(i as int)),
        decreases problems@.len() - i,
    {
        proof {
            assert(models.take(i + 1).drop_last() =~= models.take(i as int));
            assert(models.take(i + 1).last() == problems@[i as int]@);
        }
        entries.append("  ! ");
        entries.append(problems[i].file.as_str());
        entries.append(": ");
        entries.append(problems[i].message.as_str());
        entries.append("\n");
        i = i + 1;
    }
    assert(models.take(i as int) =~= models);
    let mut words = heading("Markers that can't be read", "", styled);
    words.append(entries.as_str());
    words
}

/// The all-clear, or what to do next
pub open spec fn next_steps_words(summary: SummaryModel) -> Seq<char> {
    if report::summary_ok(summary) {
        "\n✓ Every doc code block matches marked code or is ignored.\n"@
    } else {
        let resolve = if report::open_spec(summary) > 0 {
            "Resolve each ✗ block: make repo code match it, or ignore it if it doesn't come from this repo.\n"@
        } else {
            ""@
        };
        let fix = if report::fixable_spec(summary.unresolved) > 0 {
            "  asadoc fix <block>     make the change listed under the block\n"@
        } else {
            ""@
        };
        "\n"@ + resolve
            + "  asadoc check <block>   how a block differs from its closest code\n"@
            + "  asadoc check <file>    how marked code differs from its closest doc block\n"@ + fix
            + "  asadoc guide           how markers and ignoring work\n"@
    }
}

/// The all-clear, or what to do next
pub fn print_next_steps(summary: &Summary) -> (words: String)
    ensures
        words@ == next_steps_words(summary@),
{
    if summary.ok() {
        return "\n✓ Every doc code block matches marked code or is ignored.\n".to_owned();
    }
    let mut words = "\n".to_owned();
    words.append(
        if summary.open() > 0 {
            "Resolve each ✗ block: make repo code match it, or ignore it if it doesn't come from this repo.\n"
        } else {
            ""
        },
    );
    words.append("  asadoc check <block>   how a block differs from its closest code\n");
    words.append("  asadoc check <file>    how marked code differs from its closest doc block\n");
    words.append(
        if summary.fixable() > 0 {
            "  asadoc fix <block>     make the change listed under the block\n"
        } else {
            ""
        },
    );
    words.append("  asadoc guide           how markers and ignoring work\n");
    words
}

/// How many blocks there are, of each kind
pub open spec fn counts_words(summary: SummaryModel) -> Seq<char> {
    let open = report::open_spec(summary);
    "Docs: "@ + summary.docs + "\n"@ + plural_spec(
        summary.total,
        "doc code block"@,
        "doc code blocks"@,
    ) + ": "@ + numbers::decimal_spec(summary.resolved) + " match marked code in this repo, "@
        + numbers::decimal_spec(summary.ignored) + " are ignored, "@ + numbers::decimal_spec(open)
        + (if open == 1 {
        " is"@
    } else {
        " are"@
    }) + " still to resolve.\n"@
}

fn print_counts(summary: &Summary) -> (words: String)
    ensures
        words@ == counts_words(summary@),
{
    let mut words = text::surround("Docs: ", summary.docs.as_str(), "\n");
    let total = plural(summary.total, "doc code block", "doc code blocks");
    words.append(total.as_str());
    words.append(": ");
    let resolved = numbers::decimal(summary.resolved);
    words.append(resolved.as_str());
    words.append(" match marked code in this repo, ");
    let ignored = numbers::decimal(summary.ignored);
    words.append(ignored.as_str());
    words.append(" are ignored, ");
    let open = summary.open();
    let left = numbers::decimal(open);
    words.append(left.as_str());
    words.append(
        if open == 1 {
            " is"
        } else {
            " are"
        },
    );
    words.append(" still to resolve.\n");
    words
}

/// The whole picture
pub open spec fn summary_words(summary: SummaryModel, styled: bool) -> Seq<char> {
    counts_words(summary) + all_assemblies_words(summary.unresolved, styled) + all_unused_words(
        summary.unused,
        styled,
    ) + stale_words(summary.stale_ignored, styled) + problem_words(summary.problems, styled)
        + next_steps_words(summary)
}

/// `asadoc check`: the whole picture
pub fn print_summary(summary: &Summary, styled: bool) -> (words: String)
    ensures
        words@ == summary_words(summary@, styled),
{
    let mut words = print_counts(summary);
    let unresolved = print_all_unresolved(&summary.unresolved, styled);
    words.append(unresolved.as_str());
    let unused = print_unused(&summary.unused, styled);
    words.append(unused.as_str());
    let stale = print_stale_ignored(&summary.stale_ignored, styled);
    words.append(stale.as_str());
    let problems = print_problems(&summary.problems, styled);
    words.append(problems.as_str());
    let next = print_next_steps(summary);
    words.append(next.as_str());
    words
}

// ---------------------------------------------------------------------------
// Outcomes
// ---------------------------------------------------------------------------

/// What is printed of placeholders' values
pub open spec fn value_lines(values: Seq<(Seq<char>, Seq<char>)>) -> Seq<char>
    decreases values.len(),
{
    if values.len() == 0 {
        ""@
    } else {
        value_lines(values.drop_last()) + "    "@ + values.last().0 + " = "@ + apply::debug_text(
            values.last().1,
        ) + "\n"@
    }
}

fn print_values(values: &Values) -> (words: String)
    ensures
        words@ == value_lines(values@),
{
    let ghost models = values@;
    let mut words = "".to_owned();
    let mut i: usize = 0;
    while i < values.entries.len()
        invariant
            i <= values.entries@.len(),
            models == values@,
            words@ == value_lines(models.take(i as int)),
        decreases values.entries@.len() - i,
    {
        proof {
            assert(models.take(i + 1).drop_last() =~= models.take(i as int));
            assert(models.take(i + 1).last() == (
                values.entries@[i as int].0@,
                values.entries@[i as int].1@,
            ));
        }
        words.append("    ");
        words.append(values.entries[i].0.as_str());
        words.append(" = ");
        let shown = apply::show_debug(values.entries[i].1.as_str());
        words.append(shown.as_str());
        words.append("\n");
        i = i + 1;
    }
    assert(models.take(i as int) =~= models);
    words
}

/// A block and where it is
pub open spec fn place_words(reference: Seq<char>, location: Seq<char>) -> Seq<char> {
    "✗ "@ + reference + " ("@ + location + ")"@
}

fn print_place(reference: &str, location: &str) -> (words: String)
    ensures
        words@ == place_words(reference@, location@),
{
    let mut words = text::surround("✗ ", reference, " (");
    words.append(location);
    words.append(")");
    words
}

/// What is printed of a check
pub open spec fn outcome_words(outcome: OutcomeModel) -> Seq<char> {
    match outcome {
        OutcomeModel::NotFound { name } => "✗ "@ + name
            + ": no doc block or marked code by that name\n"@,
        OutcomeModel::Ignored { reference, reason } => "✓ "@ + reference + ": ignored ("@ + reason
            + ")\n"@,
        OutcomeModel::Resolved { reference, codes, values } => "✓ "@ + reference
            + ": resolved (matches "@ + lines::join(codes, "; "@) + ")\n"@ + value_lines(values),
        OutcomeModel::Unmatched { reference, location, closest, fix, sides } => {
            let head = place_words(reference, location)
                + ": no marked code matches it; the closest is "@ + closest_spec(closest) + "\n"@;
            let with_fix = match fix {
                Some(steps) => head + "  `asadoc fix "@ + reference + "` would "@ + steps_words(
                    steps,
                ) + "\n"@,
                None => head,
            };
            with_fix + diff_words(sides)
        },
        OutcomeModel::Alone { reference, location, content } => place_words(reference, location)
            + ": no marked code matches it, and nothing in the repo resembles it. The block:\n----\n"@
            + content + "----\n"@,
        OutcomeModel::Mismatch { reference, location, code, sides } => place_words(
            reference,
            location,
        ) + ": "@ + code + " doesn't match it\n"@ + diff_words(sides),
        OutcomeModel::DocOptionsDontFit { reference, code } => "✗ "@ + reference
            + ": the doc options of "@ + code + " don't fit this block\n"@,
        OutcomeModel::CodeMatches { name, blocks } => "✓ "@ + name + ": matches "@ + lines::join(
            blocks,
            ", "@,
        ) + "\n"@,
        OutcomeModel::CodeUnmatched { name, closest } => match closest {
            None => "✗ "@ + name
                + ": no doc block resembles it; if the docs no longer show it, remove its markers\n"@,
            Some((reference, location, sides)) => "✗ "@ + name
                + ": no doc block matches it; the closest is "@ + reference + " ("@ + location
                + ")\n"@ + diff_words(sides),
        },
    }
}

/// `asadoc check <name>`, in words
pub fn print_outcome(outcome: &Outcome) -> (words: String)
    ensures
        words@ == outcome_words(outcome@),
{
    match outcome {
        Outcome::NotFound { name } => text::surround(
            "✗ ",
            name.as_str(),
            ": no doc block or marked code by that name\n",
        ),
        Outcome::Ignored { reference, reason } => {
            let mut words = text::surround("✓ ", reference.as_str(), ": ignored (");
            words.append(reason.as_str());
            words.append(")\n");
            words
        },
        Outcome::Resolved { reference, codes, values } => {
            let mut words = text::surround("✓ ", reference.as_str(), ": resolved (matches ");
            let joined = lines::join_texts(codes, "; ");
            words.append(joined.as_str());
            words.append(")\n");
            let shown = print_values(values);
            words.append(shown.as_str());
            words
        },
        Outcome::Unmatched { reference, location, closest: closest_code, fix, sides } => {
            let mut words = print_place(reference.as_str(), location.as_str());
            words.append(": no marked code matches it; the closest is ");
            let code = closest(closest_code);
            words.append(code.as_str());
            words.append("\n");
            if let Some(steps) = fix {
                words.append("  `asadoc fix ");
                words.append(reference.as_str());
                words.append("` would ");
                let joined = lines::join_texts(steps, ", then ");
                words.append(joined.as_str());
                words.append("\n");
            }
            let diff = print_diff(sides);
            words.append(diff.as_str());
            words
        },
        Outcome::Alone { reference, location, content } => {
            let mut words = print_place(reference.as_str(), location.as_str());
            words.append(
                ": no marked code matches it, and nothing in the repo resembles it. The block:\n----\n",
            );
            words.append(content.as_str());
            words.append("----\n");
            words
        },
        Outcome::Mismatch { reference, location, code, sides } => {
            let mut words = print_place(reference.as_str(), location.as_str());
            words.append(": ");
            words.append(code.as_str());
            words.append(" doesn't match it\n");
            let diff = print_diff(sides);
            words.append(diff.as_str());
            words
        },
        Outcome::DocOptionsDontFit { reference, code } => {
            let mut words = text::surround("✗ ", reference.as_str(), ": the doc options of ");
            words.append(code.as_str());
            words.append(" don't fit this block\n");
            words
        },
        Outcome::CodeMatches { name, blocks } => {
            let mut words = text::surround("✓ ", name.as_str(), ": matches ");
            let joined = lines::join_texts(blocks, ", ");
            words.append(joined.as_str());
            words.append("\n");
            words
        },
        Outcome::CodeUnmatched { name, closest: closest_block } => match closest_block {
            None => text::surround(
                "✗ ",
                name.as_str(),
                ": no doc block resembles it; if the docs no longer show it, remove its markers\n",
            ),
            Some((reference, location, sides)) => {
                let mut words = text::surround(
                    "✗ ",
                    name.as_str(),
                    ": no doc block matches it; the closest is ",
                );
                words.append(reference.as_str());
                words.append(" (");
                words.append(location.as_str());
                words.append(")\n");
                let diff = print_diff(sides);
                words.append(diff.as_str());
                words
            },
        },
    }
}

/// Whether everything checked is resolved or ignored
pub fn all_ok(outcomes: &Vec<Outcome>) -> (ok: bool)
    ensures
        ok == (forall|i: int|
            0 <= i < outcomes@.len() ==> report::outcome_ok((#[trigger] outcomes@[i])@)),
{
    let mut i: usize = 0;
    while i < outcomes.len()
        invariant
            i <= outcomes@.len(),
            forall|k: int| 0 <= k < i ==> report::outcome_ok((#[trigger] outcomes@[k])@),
        decreases outcomes@.len() - i,
    {
        if !outcomes[i].ok() {
            return false;
        }
        i = i + 1;
    }
    true
}

/// Steps, each on a line
pub open spec fn step_lines(steps: Seq<Seq<char>>) -> Seq<char>
    decreases steps.len(),
{
    if steps.len() == 0 {
        ""@
    } else {
        step_lines(steps.drop_last()) + "  "@ + steps.last() + "\n"@
    }
}

fn print_steps(steps: &Vec<String>) -> (words: String)
    ensures
        words@ == step_lines(text::views(steps@)),
{
    let ghost views = text::views(steps@);
    let mut words = "".to_owned();
    let mut i: usize = 0;
    while i < steps.len()
        invariant
            i <= steps@.len(),
            views == text::views(steps@),
            words@ == step_lines(views.take(i as int)),
        decreases steps@.len() - i,
    {
        proof {
            assert(views.take(i + 1).drop_last() =~= views.take(i as int));
            assert(views.take(i + 1).last() == steps@[i as int]@);
        }
        words.append("  ");
        words.append(steps[i].as_str());
        words.append("\n");
        i = i + 1;
    }
    assert(views.take(i as int) =~= views);
    words
}

/// What is printed of a fix
pub open spec fn fix_words(outcome: FixOutcome, reference: Seq<char>) -> Seq<char> {
    match outcome {
        FixOutcome::AlreadyDone => "✓ "@ + reference + " is already resolved or ignored\n"@,
        FixOutcome::NoFix => "✗ "@ + reference
            + ": there's no simple fix for it; see how it differs with `asadoc check "@ + reference
            + "`\n"@,
        FixOutcome::Applied { file, steps, resolved } => if resolved {
            step_lines(text::views(steps@)) + "✓ "@ + reference + ": resolved\n"@
        } else {
            step_lines(text::views(steps@)) + "✗ "@ + reference + ": changed "@ + file@
                + ", but it still doesn't match; see `asadoc check "@ + reference + "`\n"@
        },
    }
}

/// `asadoc fix <block>`, in words
pub fn print_fix(outcome: &FixOutcome, reference: &str) -> (words: String)
    ensures
        words@ == fix_words(*outcome, reference@),
{
    match outcome {
        FixOutcome::AlreadyDone => text::surround(
            "✓ ",
            reference,
            " is already resolved or ignored\n",
        ),
        FixOutcome::NoFix => {
            let mut words = text::surround(
                "✗ ",
                reference,
                ": there's no simple fix for it; see how it differs with `asadoc check ",
            );
            words.append(reference);
            words.append("`\n");
            words
        },
        FixOutcome::Applied { file, steps, resolved } => {
            let mut words = print_steps(steps);
            if *resolved {
                words.append("✓ ");
                words.append(reference);
                words.append(": resolved\n");
            } else {
                words.append("✗ ");
                words.append(reference);
                words.append(": changed ");
                words.append(file.as_str());
                words.append(", but it still doesn't match; see `asadoc check ");
                words.append(reference);
                words.append("`\n");
            }
            words
        },
    }
}

} // verus!
