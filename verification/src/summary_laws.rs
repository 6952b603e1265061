//! What holds of what is reported of everything.

use crate::candidates::CandidateInfoModel;
use crate::engines::LineChange;
use crate::eval;
use crate::eval::AssemblyEvalModel;
use crate::eval::BlockEvalModel;
use crate::eval::EvaluationModel;
use crate::lightbulb;
use crate::lines;
use crate::report;
use crate::report::ClosestCode;
use crate::report::UnresolvedInModel;
use crate::report::UnresolvedModel;
use crate::report::UnusedDraftModel;
use vstd::prelude::*;

verus! {

// ---------------------------------------------------------------------------
// Differences
// ---------------------------------------------------------------------------

proof fn lemma_count_changes(changes: Seq<LineChange>, kind: LineChange)
    ensures
        report::count_changes(changes, kind) == changes.filter(
            |change: LineChange| change == kind,
        ).len(),
    decreases changes.len(),
{
    reveal(Seq::filter);
    if changes.len() > 0 {
        lemma_count_changes(changes.drop_last(), kind);
    }
}

/// The lines of a doc that differ are those that would be deleted, and the extra ones of
/// the code those that would be inserted
pub proof fn law_line_diff(doc: Seq<char>, changes: Seq<LineChange>)
    ensures
        ({
            let found = report::diff_with(doc, changes);
            &&& found.doc_lines == lines::lines_of(doc).len()
            &&& found.differ == changes.filter(|change: LineChange| change is Delete).len()
            &&& found.extra == changes.filter(|change: LineChange| change is Insert).len()
        }),
{
    lemma_count_changes(changes, LineChange::Delete);
    lemma_count_changes(changes, LineChange::Insert);
    let deleted = |change: LineChange| change == LineChange::Delete;
    let inserted = |change: LineChange| change == LineChange::Insert;
    let delete = |change: LineChange| change is Delete;
    let insert = |change: LineChange| change is Insert;
    lemma_same_filter(changes, deleted, delete);
    lemma_same_filter(changes, inserted, insert);
}

proof fn lemma_same_filter<A>(list: Seq<A>, first: spec_fn(A) -> bool, second: spec_fn(A) -> bool)
    requires
        forall|item: A| #[trigger] first(item) == second(item),
    ensures
        list.filter(first) == list.filter(second),
    decreases list.len(),
{
    reveal(Seq::filter);
    if list.len() > 0 {
        lemma_same_filter(list.drop_last(), first, second);
        assert(first(list.last()) == second(list.last()));
    }
}

// ---------------------------------------------------------------------------
// Blocks still to resolve
// ---------------------------------------------------------------------------

/// Whether a block is left: no marked code matches it, and it isn't ignored
pub open spec fn is_left(found: BlockEvalModel) -> bool {
    found.matches.len() == 0 && found.ignored_as is None
}

/// Whether code is shown as what a candidate is: lines that aren't marked, a file that
/// isn't, or marked code
pub open spec fn shows(code: ClosestCode, candidate: CandidateInfoModel) -> bool {
    match code {
        ClosestCode::Lines { file, from, to } => {
            &&& candidate.kind == "lines"@
            &&& file == candidate.file
            &&& candidate.lines matches Some(range) ==> range.0 == from && range.1 == to
        },
        ClosestCode::UnmarkedFile { file, diff } => {
            &&& candidate.kind == "unmarked-file"@
            &&& file == candidate.file
            &&& diff == report::diff_spec(candidate.doc, candidate.content)
        },
        ClosestCode::Marked { name, diff } => {
            &&& candidate.kind != "lines"@
            &&& candidate.kind != "unmarked-file"@
            &&& name == match candidate.name {
                Some(section) => candidate.file + ", section \""@ + section + "\""@,
                None => candidate.file,
            }
            &&& diff == report::diff_spec(candidate.doc, candidate.content)
        },
    }
}

/// Whether a block that is left is reported: with its reference and place, and with the
/// first candidate and what its plan would change, if there is one
pub open spec fn is_reported(found: BlockEvalModel, reported: UnresolvedModel) -> bool {
    &&& reported.reference == found.block.reference
    &&& reported.location == report::location_spec(found)
    &&& reported.closest is Some == (found.candidates.len() > 0)
    &&& reported.closest matches Some(code) ==> shows(code, found.candidates[0])
    &&& reported.fix == if found.candidates.len() > 0 && found.candidates[0].plan is Some {
        Some(
            lightbulb::plan_words(
                found.candidates[0].plan->0,
                found.candidates[0].file,
                found.candidates[0].name,
            ),
        )
    } else {
        None
    }
}

/// Whether each block that is left is reported, in order, and nothing else
pub open spec fn are_reported(
    blocks: Seq<BlockEvalModel>,
    reported: Seq<UnresolvedModel>,
) -> bool {
    let left = blocks.filter(|found: BlockEvalModel| is_left(found));
    &&& reported.len() == left.len()
    &&& forall|i: int| 0 <= i < left.len() ==> is_reported(#[trigger] left[i], reported[i])
}

proof fn lemma_unresolved(blocks: Seq<BlockEvalModel>)
    ensures
        are_reported(blocks, report::all_unresolved(blocks)),
    decreases blocks.len(),
{
    reveal(Seq::filter);
    reveal_strlit("lines");
    reveal_strlit("unmarked-file");
    if blocks.len() > 0 {
        lemma_unresolved(blocks.drop_last());
        assert("lines"@.len() != "unmarked-file"@.len());
        assert(is_left(blocks.last()) ==> is_reported(
            blocks.last(),
            report::unresolved_spec(blocks.last()),
        ));
    }
}

/// Whether an assembly has a block that is left
pub open spec fn has_some_left(found: AssemblyEvalModel) -> bool {
    exists|i: int| 0 <= i < found.blocks.len() && is_left(#[trigger] found.blocks[i])
}

proof fn lemma_some_left(blocks: Seq<BlockEvalModel>)
    ensures
        (report::all_unresolved(blocks).len() > 0) == (exists|i: int|
            0 <= i < blocks.len() && is_left(#[trigger] blocks[i])),
    decreases blocks.len(),
{
    if blocks.len() > 0 {
        let head = blocks.drop_last();
        lemma_some_left(head);
        if exists|i: int| 0 <= i < head.len() && is_left(#[trigger] head[i]) {
            let i = choose|i: int| 0 <= i < head.len() && is_left(#[trigger] head[i]);
            assert(is_left(blocks[i]));
        }
        if exists|i: int| 0 <= i < blocks.len() && is_left(#[trigger] blocks[i]) {
            let i = choose|i: int| 0 <= i < blocks.len() && is_left(#[trigger] blocks[i]);
            if i < head.len() {
                assert(is_left(head[i]));
            }
        }
        if is_left(blocks.last()) {
            assert(is_left(blocks[blocks.len() - 1]));
        }
    }
}

/// Whether an assembly is reported: under its title and path, with its blocks that are
/// left
pub open spec fn is_reported_in(found: AssemblyEvalModel, reported: UnresolvedInModel) -> bool {
    &&& reported.title == found.assembly.title
    &&& reported.path == found.assembly.path
    &&& are_reported(found.blocks, reported.blocks)
}

/// Each assembly with a block that is left is reported, in order, and no other
pub proof fn law_unresolved_by_assembly(assemblies: Seq<AssemblyEvalModel>)
    ensures
        ({
            let reported = report::unresolved_by_assembly(assemblies);
            let left = assemblies.filter(|found: AssemblyEvalModel| has_some_left(found));
            &&& reported.len() == left.len()
            &&& forall|i: int|
                0 <= i < left.len() ==> is_reported_in(#[trigger] left[i], reported[i])
        }),
    decreases assemblies.len(),
{
    reveal(Seq::filter);
    if assemblies.len() > 0 {
        law_unresolved_by_assembly(assemblies.drop_last());
        lemma_unresolved(assemblies.last().blocks);
        lemma_some_left(assemblies.last().blocks);
    }
}

// ---------------------------------------------------------------------------
// Counts
// ---------------------------------------------------------------------------

proof fn lemma_counts(blocks: Seq<BlockEvalModel>)
    ensures
        report::count_resolved(blocks) == blocks.filter(
            |found: BlockEvalModel| found.matches.len() > 0,
        ).len(),
        report::count_ignored(blocks) == blocks.filter(
            |found: BlockEvalModel| found.ignored_as is Some,
        ).len(),
    decreases blocks.len(),
{
    reveal(Seq::filter);
    if blocks.len() > 0 {
        lemma_counts(blocks.drop_last());
    }
}

/// A summary counts all blocks, those that marked code matches and those that are
/// ignored. It holds every problem, each ignored content that is stale with its first
/// line, and all of the unused code it is given
pub proof fn law_summary_counts(
    docs: Seq<char>,
    evaluation: EvaluationModel,
    unused: Seq<UnusedDraftModel>,
)
    ensures
        ({
            let found = report::summary_spec(docs, evaluation, unused);
            let blocks = eval::all_blocks(evaluation.assemblies);
            let stale = evaluation.stale_ignored;
            &&& found.docs == docs
            &&& found.total == blocks.len()
            &&& found.resolved == blocks.filter(
                |found: BlockEvalModel| found.matches.len() > 0,
            ).len()
            &&& found.ignored == blocks.filter(
                |found: BlockEvalModel| found.ignored_as is Some,
            ).len()
            &&& found.problems == evaluation.scan.problems
            &&& found.unused.len() == unused.len()
            &&& forall|i: int|
                0 <= i < unused.len() ==> (#[trigger] found.unused[i]).name == unused[i].name
            &&& found.stale_ignored.len() == stale.len()
            &&& forall|i: int|
                0 <= i < stale.len() ==> (#[trigger] found.stale_ignored[i]).0 == stale[i].0
                    && found.stale_ignored[i].1 == if lines::lines_of(stale[i].1).len() > 0 {
                    lines::lines_of(stale[i].1)[0]
                } else {
                    Seq::<char>::empty()
                }
        }),
{
    reveal_strlit("");
    assert(""@ =~= Seq::<char>::empty());
    lemma_counts(eval::all_blocks(evaluation.assemblies));
}

/// The blocks that can be fixed are the reported ones with changes to make
pub proof fn law_fixable(first: Seq<UnresolvedInModel>, last: UnresolvedInModel)
    ensures
        report::fixable_spec(first.push(last)) == report::fixable_spec(first) + last.blocks.filter(
            |block: UnresolvedModel| block.fix is Some,
        ).len(),
        report::fixable_spec(Seq::empty()) == 0,
{
    assert(first.push(last).drop_last() =~= first);
    lemma_fixable_in(last.blocks);
}

proof fn lemma_fixable_in(blocks: Seq<UnresolvedModel>)
    ensures
        report::fixable_in(blocks) == blocks.filter(
            |block: UnresolvedModel| block.fix is Some,
        ).len(),
    decreases blocks.len(),
{
    reveal(Seq::filter);
    if blocks.len() > 0 {
        lemma_fixable_in(blocks.drop_last());
    }
}

// ---------------------------------------------------------------------------
// Unused code
// ---------------------------------------------------------------------------

/// Whether code is the first candidate of a block that is left
pub open spec fn is_shown(blocks: Seq<BlockEvalModel>, id: Seq<char>) -> bool {
    exists|i: int|
        0 <= i < blocks.len() && is_left(#[trigger] blocks[i]) && blocks[i].candidates.len() > 0
            && blocks[i].candidates[0].id == id
}

proof fn lemma_shown(blocks: Seq<BlockEvalModel>, id: Seq<char>)
    ensures
        report::shown_ids(blocks).contains(id) == is_shown(blocks, id),
    decreases blocks.len(),
{
    let ids = report::shown_ids(blocks);
    if blocks.len() > 0 {
        let head = blocks.drop_last();
        let before = report::shown_ids(head);
        lemma_shown(head, id);
        if before.contains(id) {
            let k = choose|k: int| 0 <= k < before.len() && before[k] == id;
            assert(ids[k] == id);
            let i = choose|i: int|
                0 <= i < head.len() && is_left(#[trigger] head[i]) && head[i].candidates.len() > 0
                    && head[i].candidates[0].id == id;
            assert(is_left(blocks[i]));
        }
        let last = blocks.last();
        if is_left(last) && last.candidates.len() > 0 && last.candidates[0].id == id {
            assert(ids[ids.len() - 1] == id);
            assert(is_left(blocks[blocks.len() - 1]));
        }
        if is_shown(blocks, id) {
            let i = choose|i: int|
                0 <= i < blocks.len() && is_left(#[trigger] blocks[i]) && blocks[i].candidates.len()
                    > 0 && blocks[i].candidates[0].id == id;
            if i < head.len() {
                assert(is_left(head[i]));
            }
        }
        if ids.contains(id) {
            let k = choose|k: int| 0 <= k < ids.len() && ids[k] == id;
            if k < before.len() {
                assert(before[k] == id);
            }
        }
    }
}

/// Whether unused code is described: unless a block that is left shows it already
pub open spec fn is_described(evaluation: EvaluationModel, index: usize) -> bool {
    !is_shown(eval::all_blocks(evaluation.assemblies), evaluation.scan.marked[index as int].id)
}

proof fn lemma_unused(evaluation: EvaluationModel, unused: Seq<usize>)
    requires
        report::all_unused(
            evaluation,
            report::shown_ids(eval::all_blocks(evaluation.assemblies)),
            unused,
        ) is Ok,
    ensures
        ({
            let shown = report::shown_ids(eval::all_blocks(evaluation.assemblies));
            let found = report::all_unused(evaluation, shown, unused)->Ok_0;
            let described = unused.filter(|index: usize| is_described(evaluation, index));
            &&& found.len() == described.len()
            &&& forall|i: int|
                0 <= i < described.len() ==> (#[trigger] found[i]).name == report::describe_spec(
                    evaluation.scan.marked[described[i] as int],
                )
        }),
    decreases unused.len(),
{
    reveal(Seq::filter);
    if unused.len() > 0 {
        let blocks = eval::all_blocks(evaluation.assemblies);
        lemma_unused(evaluation, unused.drop_last());
        lemma_shown(blocks, evaluation.scan.marked[unused.last() as int].id);
    }
}

/// The unused code that is described is all of it but the code that is already shown as
/// the closest to a block that is left
pub proof fn law_unused_code_is_described(evaluation: EvaluationModel)
    requires
        report::unused_drafts_spec(evaluation) is Ok,
    ensures
        ({
            let found = report::unused_drafts_spec(evaluation)->Ok_0;
            let described = evaluation.unused.filter(
                |index: usize| is_described(evaluation, index),
            );
            &&& found.len() == described.len()
            &&& forall|i: int|
                0 <= i < described.len() ==> (#[trigger] found[i]).name == report::describe_spec(
                    evaluation.scan.marked[described[i] as int],
                )
        }),
{
    lemma_unused(evaluation, evaluation.unused);
}

} // verus!
