//! What holds of what checks and fixes find.

use crate::candidates;
use crate::candidates::CandidateInfoModel;
use crate::eval;
use crate::eval::BlockEvalModel;
use crate::eval::EvaluationModel;
use crate::eval::MatchModel;
use crate::lightbulb;
use crate::numbers;
use crate::repo::CodeModel;
use crate::report;
use crate::report::ChoiceModel;
use crate::report::OutcomeModel;
use crate::report::UnusedDraftModel;
use crate::report_laws;
use crate::similarity;
use crate::summary_laws;
use vstd::prelude::*;

verus! {

// ---------------------------------------------------------------------------
// Blocks
// ---------------------------------------------------------------------------

/// How code is named: by its file, and by its section if it has one
pub open spec fn name_of(file: Seq<char>, section: Option<Seq<char>>) -> Seq<char> {
    match section {
        Some(section) => file + ", section \""@ + section + seq!['"'],
        None => file,
    }
}

proof fn lemma_name(file: Seq<char>, section: Option<Seq<char>>)
    ensures
        report::code_name_spec(file, section) == name_of(file, section),
{
    reveal_strlit("\"");
    assert("\""@ =~= seq!['"']);
}

/// A block is in its module's file, at its line
pub proof fn law_location(found: BlockEvalModel)
    ensures
        report::location_spec(found) == "modules/"@ + found.block.module + ".adoc"@ + seq![':']
            + numbers::decimal_spec(found.block.line),
{
    reveal_strlit(".adoc:");
    reveal_strlit(".adoc");
    assert(".adoc:"@ =~= ".adoc"@ + seq![':']);
    assert("modules/"@ + found.block.module + ".adoc:"@ =~= "modules/"@ + found.block.module
        + ".adoc"@ + seq![':']);
}

/// Whether names are those of the code that a block matches, in order
pub open spec fn are_match_names(
    names: Seq<Seq<char>>,
    marked: Seq<CodeModel>,
    list: Seq<MatchModel>,
) -> bool {
    &&& names.len() == list.len()
    &&& forall|i: int|
        0 <= i < list.len() ==> (#[trigger] list[i]).code < marked.len() && names[i] == name_of(
            marked[list[i].code as int].file,
            marked[list[i].code as int].section,
        )
}

proof fn lemma_match_names(marked: Seq<CodeModel>, list: Seq<MatchModel>)
    requires
        report::match_names(marked, list) is Ok,
    ensures
        are_match_names(report::match_names(marked, list)->Ok_0, marked, list),
    decreases list.len(),
{
    if list.len() > 0 {
        let head = list.drop_last();
        lemma_match_names(marked, head);
        let names = report::match_names(marked, list)->Ok_0;
        let code = marked[list.last().code as int];
        lemma_name(code.file, code.section);
        assert forall|i: int| 0 <= i < list.len() implies (#[trigger] list[i]).code < marked.len()
            && names[i] == name_of(
            marked[list[i].code as int].file,
            marked[list[i].code as int].section,
        ) by {
            if i < head.len() {
                assert(head[i] == list[i]);
            }
        }
    }
}

/// A block is told with why it is ignored, with all of the code that matches it, with
/// the first of the candidates and how it differs from that, or alone
pub proof fn law_block_told(marked: Seq<CodeModel>, found: BlockEvalModel)
    requires
        report::block_outcome(marked, found) is Ok,
    ensures
        match report::block_outcome(marked, found)->Ok_0 {
            OutcomeModel::Ignored { reference, reason } => {
                &&& reference == found.block.reference
                &&& found.ignored_as == Some(reason)
            },
            OutcomeModel::Resolved { reference, codes, values } => {
                &&& reference == found.block.reference
                &&& found.ignored_as is None
                &&& found.matches.len() > 0
                &&& are_match_names(codes, marked, found.matches)
                &&& values == found.matches[0].values
            },
            OutcomeModel::Unmatched { reference, location, closest, fix, sides } => {
                let top = found.candidates[0];
                &&& summary_laws::is_left(found)
                &&& found.candidates.len() > 0
                &&& reference == found.block.reference
                &&& location == report::location_spec(found)
                &&& summary_laws::shows(closest, top)
                &&& fix is Some == top.plan is Some
                &&& sides.doc == top.doc
                &&& sides.code == top.content
                &&& ("doc: "@ + reference).is_prefix_of(sides.doc_label)
                &&& name_of(top.file, top.name).is_prefix_of(sides.code_label)
            },
            OutcomeModel::Alone { reference, location, content } => {
                &&& summary_laws::is_left(found)
                &&& found.candidates.len() == 0
                &&& reference == found.block.reference
                &&& location == report::location_spec(found)
                &&& content == found.block.content
            },
            _ => false,
        },
{
    if found.ignored_as is None && found.matches.len() > 0 {
        lemma_match_names(marked, found.matches);
    } else if found.ignored_as is None && found.candidates.len() > 0 {
        let top = found.candidates[0];
        let reference = found.block.reference;
        lemma_name(top.file, top.name);
        reveal_strlit("lines");
        reveal_strlit("unmarked-file");
        reveal_strlit("\"");
        assert("lines"@.len() != "unmarked-file"@.len());
        let label = report::doc_label_spec(reference, top.doc_options.len() > 0);
        let start = "doc: "@ + reference;
        assert(label.take(start.len() as int) =~= start);
        let name = report::code_name_spec(top.file, top.name);
        let code_label = report::code_label_spec(name, top.options.len() > 0);
        assert(code_label.take(name.len() as int) =~= name);
    }
}

// ---------------------------------------------------------------------------
// Code
// ---------------------------------------------------------------------------

/// Code is told to match all the blocks that it matches, in order
pub proof fn law_matched_references(
    marked: Seq<CodeModel>,
    blocks: Seq<BlockEvalModel>,
    code: CodeModel,
)
    ensures
        ({
            let references = report::matched_references(marked, blocks, code);
            let matched = blocks.filter(
                |found: BlockEvalModel| report_laws::is_matched_by(marked, found, code),
            );
            &&& references.len() == matched.len()
            &&& forall|i: int|
                0 <= i < matched.len() ==> references[i] == (#[trigger] matched[i]).block.reference
        }),
    decreases blocks.len(),
{
    reveal(Seq::filter);
    if blocks.len() > 0 {
        law_matched_references(marked, blocks.drop_last(), code);
        report_laws::lemma_first_match(marked, blocks.last(), code, 0);
    }
}

/// Code is compared with all the blocks that its doc options fit, in order: with the
/// block as these make it, and with its own placeholders filled in from that
pub proof fn law_compared_blocks(code: CodeModel, blocks: Seq<BlockEvalModel>)
    requires
        candidates::compared_spec(code, blocks) is Ok,
    ensures
        ({
            let found = candidates::compared_spec(code, blocks)->Ok_0;
            let fit = blocks.filter(
                |one: BlockEvalModel|
                    eval::doc_side_spec(one.block.content, code.doc_options) is Some,
            );
            &&& found.len() == fit.len()
            &&& forall|i: int|
                0 <= i < fit.len() ==> {
                    &&& found[i].block == #[trigger] fit[i]
                    &&& eval::doc_side_spec(fit[i].block.content, code.doc_options) == Some(
                        found[i].doc,
                    )
                    &&& found[i].comparison == similarity::similarity_spec(
                        found[i].doc,
                        found[i].code,
                    )
                }
        }),
    decreases blocks.len(),
{
    reveal(Seq::filter);
    if blocks.len() > 0 {
        law_compared_blocks(code, blocks.drop_last());
    }
}

/// Unused code is told with its name and the block closest to it, and how they differ
pub proof fn law_unused_told(draft: UnusedDraftModel)
    ensures
        ({
            let told = report::unused_with(draft);
            &&& told.name == draft.name
            &&& told.closest is Some == candidates::closest_spec(draft.drafts) is Some
            &&& candidates::closest_spec(draft.drafts) matches Some(closest) ==> told.closest
                == Some(
                (closest.block.block.reference, report::diff_spec(closest.doc, closest.code)),
            )
        }),
{
}

// ---------------------------------------------------------------------------
// Fixes
// ---------------------------------------------------------------------------

/// Whether the `i`th candidate is the first that has a plan
pub open spec fn is_first_planned(list: Seq<CandidateInfoModel>, i: int) -> bool {
    &&& 0 <= i < list.len()
    &&& list[i].plan is Some
    &&& forall|j: int| 0 <= j < i ==> (#[trigger] list[j]).plan is None
}

proof fn lemma_first_plan(list: Seq<CandidateInfoModel>, from: int)
    requires
        0 <= from <= list.len(),
        forall|j: int| 0 <= j < from ==> (#[trigger] list[j]).plan is None,
    ensures
        match report::first_plan(list, from) {
            ChoiceModel::Change { file, name, plan, steps } => {
                &&& exists|i: int| #[trigger]
                    is_first_planned(list, i) && list[i].plan == Some(plan) && list[i].file == file
                        && list[i].name == name
                &&& steps == lightbulb::plan_words(plan, file, name)
            },
            ChoiceModel::NoFix => forall|j: int|
                0 <= j < list.len() ==> (#[trigger] list[j]).plan is None,
            ChoiceModel::AlreadyDone => false,
        },
    decreases list.len() - from,
{
    if from < list.len() {
        if list[from].plan is Some {
            assert(is_first_planned(list, from));
        } else {
            lemma_first_plan(list, from + 1);
        }
    }
}

/// A fix makes the change of the first candidate that has a plan. There is nothing to do
/// for a block that is done, and no fix when no candidate has a plan
pub proof fn law_fix(evaluation: EvaluationModel, reference: Seq<char>, found: BlockEvalModel)
    requires
        eval::with_reference(eval::all_blocks(evaluation.assemblies), reference, 0) == Some(found),
    ensures
        match report::fix_spec(evaluation, reference) {
            Ok(ChoiceModel::AlreadyDone) => !summary_laws::is_left(found),
            Ok(ChoiceModel::Change { file, name, plan, steps }) => {
                &&& summary_laws::is_left(found)
                &&& exists|i: int| #[trigger]
                    is_first_planned(found.candidates, i) && found.candidates[i].plan == Some(plan)
                        && found.candidates[i].file == file && found.candidates[i].name == name
                &&& steps == lightbulb::plan_words(plan, file, name)
            },
            Ok(ChoiceModel::NoFix) => {
                &&& summary_laws::is_left(found)
                &&& forall|j: int|
                    0 <= j < found.candidates.len() ==> (
                    #[trigger] found.candidates[j]).plan is None
            },
            Err(_) => false,
        },
{
    lemma_first_plan(found.candidates, 0);
}

} // verus!
