//! When checking blocks and marked code by name comes out well.

use crate::eval;
use crate::eval::BlockEvalModel;
use crate::eval::EvaluationModel;
use crate::report;
use crate::report::OutcomeDraftModel;
use crate::repo::CodeModel;
use vstd::prelude::*;

verus! {

/// Whether some block is matched by marked code with the id of the given code
pub open spec fn is_matched_by(
    marked: Seq<CodeModel>,
    found: BlockEvalModel,
    code: CodeModel,
) -> bool {
    exists|m: int|
        0 <= m < found.matches.len() && (#[trigger] found.matches[m]).code < marked.len()
            && marked[found.matches[m].code as int].id == code.id
}

/// Whether some block of an evaluation is matched by the code
pub open spec fn matches_some_block(evaluation: EvaluationModel, code: CodeModel) -> bool {
    exists|b: int|
        0 <= b < eval::all_blocks(evaluation.assemblies).len() && is_matched_by(
            evaluation.scan.marked,
            #[trigger] eval::all_blocks(evaluation.assemblies)[b],
            code,
        )
}

/// Whether an argument is the code's file, its file and section, or its id
pub open spec fn names_code(arg: Seq<char>, code: CodeModel) -> bool {
    ||| arg == code.file
    ||| arg == code.id
    ||| code.section matches Some(section) && arg == code.file + ", section \""@ + section + "\""@
}

/// Whether a block is the first with a reference
pub open spec fn is_first_block(blocks: Seq<BlockEvalModel>, reference: Seq<char>, b: int) -> bool {
    &&& 0 <= b < blocks.len()
    &&& blocks[b].block.reference == reference
    &&& forall|j: int| 0 <= j < b ==> (#[trigger] blocks[j]).block.reference != reference
}

/// Whether what a name refers to is as it should be: the block of that name is ignored or
/// some code (the given code, if any) matches it; or, when there is no such block, there is
/// code of that name and all of it matches some block
pub open spec fn is_well(
    evaluation: EvaluationModel,
    name: Seq<char>,
    against: Option<CodeModel>,
) -> bool {
    let blocks = eval::all_blocks(evaluation.assemblies);
    let marked = evaluation.scan.marked;
    if exists|b: int| #[trigger] is_first_block(blocks, name, b) {
        exists|b: int|
            #[trigger] is_first_block(blocks, name, b) && match against {
                Some(code) => is_matched_by(marked, blocks[b], code),
                None => blocks[b].ignored_as is Some || blocks[b].matches.len() > 0,
            }
    } else {
        &&& exists|c: int| 0 <= c < marked.len() && names_code(name, #[trigger] marked[c])
        &&& forall|c: int|
            0 <= c < marked.len() && names_code(name, #[trigger] marked[c]) ==> matches_some_block(
                evaluation,
                marked[c],
            )
    }
}

/// Whether all of what was found is as it should be
pub open spec fn all_well(drafts: Seq<OutcomeDraftModel>) -> bool {
    forall|i: int|
        0 <= i < drafts.len() ==> report::outcome_ok(report::finished(#[trigger] drafts[i]))
}

pub proof fn lemma_first_match(
    marked: Seq<CodeModel>,
    found: BlockEvalModel,
    code: CodeModel,
    i: int,
)
    requires
        0 <= i <= found.matches.len(),
    ensures
        (report::first_match_with(marked, found.matches, code, i) is Some) == (exists|m: int|
            i <= m < found.matches.len() && (#[trigger] found.matches[m]).code < marked.len()
                && marked[found.matches[m].code as int].id == code.id),
    decreases found.matches.len() - i,
{
    if i < found.matches.len() {
        lemma_first_match(marked, found, code, i + 1);
        if !report::matches_with(marked, found.matches[i], code) {
            assert(forall|m: int|
                i <= m < found.matches.len() && (#[trigger] found.matches[m]).code < marked.len()
                    && marked[found.matches[m].code as int].id == code.id ==> i + 1 <= m);
        }
    }
}

proof fn lemma_matched(marked: Seq<CodeModel>, found: BlockEvalModel, code: CodeModel)
    ensures
        (report::first_match_with(marked, found.matches, code, 0) is Some) == is_matched_by(
            marked,
            found,
            code,
        ),
{
    lemma_first_match(marked, found, code, 0);
}

proof fn lemma_references(marked: Seq<CodeModel>, blocks: Seq<BlockEvalModel>, code: CodeModel)
    ensures
        (report::matched_references(marked, blocks, code).len() > 0) == (exists|b: int|
            0 <= b < blocks.len() && is_matched_by(marked, #[trigger] blocks[b], code)),
    decreases blocks.len(),
{
    if blocks.len() > 0 {
        let head = blocks.drop_last();
        lemma_references(marked, head, code);
        lemma_matched(marked, blocks.last(), code);
        assert(blocks[blocks.len() - 1] == blocks.last());
        if exists|b: int| 0 <= b < head.len() && is_matched_by(marked, #[trigger] head[b], code) {
            let b = choose|b: int|
                0 <= b < head.len() && is_matched_by(marked, #[trigger] head[b], code);
            assert(blocks[b] == head[b]);
        }
        if exists|b: int| 0 <= b < blocks.len() && is_matched_by(marked, #[trigger] blocks[b], code) {
            let b = choose|b: int|
                0 <= b < blocks.len() && is_matched_by(marked, #[trigger] blocks[b], code);
            if b < head.len() {
                assert(head[b] == blocks[b]);
            }
        }
    }
}

/// Checking marked code comes out well exactly when the code matches some block
pub proof fn law_code_outcome(evaluation: EvaluationModel, code: CodeModel)
    ensures
        report::code_outcome_spec(evaluation, code) matches Ok(draft) ==> report::outcome_ok(
            report::finished(draft),
        ) == matches_some_block(evaluation, code),
{
    lemma_references(
        evaluation.scan.marked,
        eval::all_blocks(evaluation.assemblies),
        code,
    );
}

/// Checking a block against some code comes out well exactly when that code matches it
pub proof fn law_block_against(marked: Seq<CodeModel>, found: BlockEvalModel, code: CodeModel)
    ensures
        report::block_against_spec(marked, found, code) matches Ok(outcome) ==> report::outcome_ok(
            outcome,
        ) == is_matched_by(marked, found, code),
{
    lemma_matched(marked, found, code);
}

pub proof fn lemma_named(code: CodeModel, arg: Seq<char>)
    ensures
        report::is_named(code, arg) == names_code(arg, code),
{
}

proof fn lemma_found_codes(marked: Seq<CodeModel>, arg: Seq<char>)
    ensures
        forall|c: int|
            0 <= c < marked.len() && names_code(arg, #[trigger] marked[c])
                ==> report::find_code_spec(marked, arg).contains(marked[c]),
        forall|k: int|
            0 <= k < report::find_code_spec(marked, arg).len() ==> names_code(
                arg,
                #[trigger] report::find_code_spec(marked, arg)[k],
            ) && marked.contains(report::find_code_spec(marked, arg)[k]),
    decreases marked.len(),
{
    if marked.len() > 0 {
        let head = marked.drop_last();
        let all = report::find_code_spec(marked, arg);
        let before = report::find_code_spec(head, arg);
        lemma_found_codes(head, arg);
        lemma_named(marked.last(), arg);
        assert(marked[marked.len() - 1] == marked.last());
        assert forall|c: int|
            0 <= c < marked.len() && names_code(arg, #[trigger] marked[c]) implies all.contains(
            marked[c],
        ) by {
            if c < head.len() {
                assert(head[c] == marked[c]);
                let k = choose|k: int| 0 <= k < before.len() && before[k] == marked[c];
                assert(before.contains(head[c]));
                assert(all[k] == marked[c]);
            } else {
                assert(all.last() == marked[c]);
                assert(all[all.len() - 1] == marked[c]);
            }
        }
        assert forall|k: int| 0 <= k < all.len() implies names_code(arg, #[trigger] all[k])
            && marked.contains(all[k]) by {
            if k < before.len() {
                assert(all[k] == before[k]);
                let c = choose|c: int| 0 <= c < head.len() && head[c] == before[k];
                assert(head.contains(before[k]));
                assert(marked[c] == all[k]);
            } else {
                assert(all[k] == marked.last());
            }
        }
    }
}

proof fn lemma_code_outcomes(evaluation: EvaluationModel, codes: Seq<CodeModel>)
    ensures
        report::code_outcomes(evaluation, codes) matches Ok(drafts) ==> all_well(drafts) == (
        forall|k: int|
            0 <= k < codes.len() ==> matches_some_block(evaluation, #[trigger] codes[k])),
    decreases codes.len(),
{
    if codes.len() > 0 {
        let head = codes.drop_last();
        lemma_code_outcomes(evaluation, head);
        law_code_outcome(evaluation, codes.last());
        assert(codes[codes.len() - 1] == codes.last());
        if let Ok(drafts) = report::code_outcomes(evaluation, codes) {
            let before = report::code_outcomes(evaluation, head)->Ok_0;
            let draft = report::code_outcome_spec(evaluation, codes.last())->Ok_0;
            assert(drafts == before.push(draft));
            lemma_all_well(before, seq![draft]);
            assert(before + seq![draft] =~= drafts);
            assert(all_well(seq![draft]) == report::outcome_ok(report::finished(draft))) by {
                assert(seq![draft][0] == draft);
            }
            if forall|k: int|
                0 <= k < codes.len() ==> matches_some_block(evaluation, #[trigger] codes[k]) {
                assert forall|k: int| 0 <= k < head.len() implies matches_some_block(
                    evaluation,
                    #[trigger] head[k],
                ) by {
                    assert(head[k] == codes[k]);
                }
            }
            if all_well(drafts) {
                assert forall|k: int| 0 <= k < codes.len() implies matches_some_block(
                    evaluation,
                    #[trigger] codes[k],
                ) by {
                    if k < head.len() {
                        assert(head[k] == codes[k]);
                    }
                }
            }
        }
    }
}

proof fn lemma_all_well(first: Seq<OutcomeDraftModel>, second: Seq<OutcomeDraftModel>)
    ensures
        all_well(first + second) == (all_well(first) && all_well(second)),
{
    let all = first + second;
    if all_well(all) {
        assert forall|i: int| 0 <= i < first.len() implies report::outcome_ok(
            report::finished(#[trigger] first[i]),
        ) by {
            assert(all[i] == first[i]);
        }
        assert forall|i: int| 0 <= i < second.len() implies report::outcome_ok(
            report::finished(#[trigger] second[i]),
        ) by {
            assert(all[first.len() + i] == second[i]);
        }
    }
    if all_well(first) && all_well(second) {
        assert forall|i: int| 0 <= i < all.len() implies report::outcome_ok(
            report::finished(#[trigger] all[i]),
        ) by {
            if i < first.len() {
                assert(all[i] == first[i]);
            } else {
                assert(all[i] == second[i - first.len()]);
            }
        }
    }
}

proof fn lemma_with_reference(blocks: Seq<BlockEvalModel>, reference: Seq<char>, i: int)
    requires
        0 <= i <= blocks.len(),
        forall|j: int| 0 <= j < i ==> (#[trigger] blocks[j]).block.reference != reference,
    ensures
        match eval::with_reference(blocks, reference, i) {
            Some(found) => exists|b: int|
                #[trigger] is_first_block(blocks, reference, b) && blocks[b] == found,
            None => !(exists|b: int| #[trigger] is_first_block(blocks, reference, b)),
        },
    decreases blocks.len() - i,
{
    if i < blocks.len() {
        if blocks[i].block.reference == reference {
            assert(is_first_block(blocks, reference, i));
        } else {
            lemma_with_reference(blocks, reference, i + 1);
        }
    }
}

/// Checking what a name refers to comes out well exactly when it is as it should be; a name
/// that refers to nothing never does
pub proof fn law_name_outcome(
    evaluation: EvaluationModel,
    name: Seq<char>,
    against: Option<CodeModel>,
)
    ensures
        report::name_outcomes_spec(evaluation, name, against) matches Ok(drafts) ==> all_well(
            drafts,
        ) == is_well(evaluation, name, against),
{
    let blocks = eval::all_blocks(evaluation.assemblies);
    let marked = evaluation.scan.marked;
    lemma_with_reference(blocks, name, 0);
    if let Ok(drafts) = report::name_outcomes_spec(evaluation, name, against) {
        match eval::with_reference(blocks, name, 0) {
            Some(found) => {
                let b = choose|b: int|
                    #[trigger] is_first_block(blocks, name, b) && blocks[b] == found;
                assert(is_first_block(blocks, name, b));
                assert forall|other: int| #[trigger] is_first_block(blocks, name, other) implies
                    other == b by {
                    if other < b {
                        assert(blocks[other].block.reference != name);
                    } else if b < other {
                        assert(blocks[b].block.reference != name);
                    }
                }
                if let Some(code) = against {
                    law_block_against(marked, found, code);
                } else {
                    report::law_block_outcome(marked, found);
                }
                assert(drafts.len() == 1);
                assert(all_well(drafts) == report::outcome_ok(report::finished(drafts[0])));
            },
            None => {
                let codes = report::find_code_spec(marked, name);
                lemma_found_codes(marked, name);
                if codes.len() == 0 {
                    assert(drafts.len() == 1);
                    assert(!report::outcome_ok(report::finished(drafts[0])));
                    assert forall|c: int| 0 <= c < marked.len() implies !names_code(
                        name,
                        #[trigger] marked[c],
                    ) by {
                        if names_code(name, marked[c]) {
                            assert(codes.contains(marked[c]));
                        }
                    }
                } else {
                    lemma_code_outcomes(evaluation, codes);
                    assert(names_code(name, codes[0]) && marked.contains(codes[0]));
                    let c = choose|c: int| 0 <= c < marked.len() && marked[c] == codes[0];
                    assert(names_code(name, marked[c]));
                    if is_well(evaluation, name, against) {
                        assert forall|k: int| 0 <= k < codes.len() implies matches_some_block(
                            evaluation,
                            #[trigger] codes[k],
                        ) by {
                            assert(names_code(name, codes[k]) && marked.contains(codes[k]));
                            let m = choose|m: int| 0 <= m < marked.len() && marked[m] == codes[k];
                            assert(names_code(name, marked[m]));
                        }
                    }
                    if all_well(drafts) {
                        assert forall|m: int|
                            0 <= m < marked.len() && names_code(
                                name,
                                #[trigger] marked[m],
                            ) implies matches_some_block(evaluation, marked[m]) by {
                            assert(codes.contains(marked[m]));
                            let k = choose|k: int| 0 <= k < codes.len() && codes[k] == marked[m];
                            assert(matches_some_block(evaluation, codes[k]));
                        }
                    }
                }
            },
        }
    }
}

proof fn lemma_all_outcomes(
    evaluation: EvaluationModel,
    names: Seq<Seq<char>>,
    against: Option<CodeModel>,
)
    ensures
        report::all_outcomes(evaluation, names, against) matches Ok(drafts) ==> all_well(drafts)
            == (forall|i: int|
            0 <= i < names.len() ==> is_well(evaluation, #[trigger] names[i], against)),
    decreases names.len(),
{
    if names.len() > 0 {
        let head = names.drop_last();
        lemma_all_outcomes(evaluation, head, against);
        law_name_outcome(evaluation, names.last(), against);
        assert(names[names.len() - 1] == names.last());
        if let Ok(drafts) = report::all_outcomes(evaluation, names, against) {
            let before = report::all_outcomes(evaluation, head, against)->Ok_0;
            let more = report::name_outcomes_spec(evaluation, names.last(), against)->Ok_0;
            lemma_all_well(before, more);
            if forall|i: int|
                0 <= i < names.len() ==> is_well(evaluation, #[trigger] names[i], against) {
                assert forall|i: int| 0 <= i < head.len() implies is_well(
                    evaluation,
                    #[trigger] head[i],
                    against,
                ) by {
                    assert(head[i] == names[i]);
                }
            }
            if all_well(drafts) {
                assert forall|i: int| 0 <= i < names.len() implies is_well(
                    evaluation,
                    #[trigger] names[i],
                    against,
                ) by {
                    if i < head.len() {
                        assert(head[i] == names[i]);
                    }
                }
            }
        }
    }
}

/// Checking names comes out well exactly when what each of them refers to is as it should
/// be; against code, that is the one piece of marked code of the given name
pub proof fn law_names_come_out_well(
    evaluation: EvaluationModel,
    names: Seq<Seq<char>>,
    against: Option<Seq<char>>,
)
    ensures
        report::outcomes_spec(evaluation, names, against) matches Ok(drafts) ==> match against {
            None => all_well(drafts) == (forall|i: int|
                0 <= i < names.len() ==> is_well(evaluation, #[trigger] names[i], None)),
            Some(arg) => exists|c: int|
                0 <= c < evaluation.scan.marked.len() && names_code(
                    arg,
                    #[trigger] evaluation.scan.marked[c],
                ) && all_well(drafts) == (forall|i: int|
                    0 <= i < names.len() ==> is_well(
                        evaluation,
                        #[trigger] names[i],
                        Some(evaluation.scan.marked[c]),
                    )),
        },
{
    let marked = evaluation.scan.marked;
    match against {
        None => {
            lemma_all_outcomes(evaluation, names, None);
        },
        Some(arg) => {
            if let Ok(code) = report::against_spec(marked, arg) {
                let codes = report::find_code_spec(marked, arg);
                lemma_found_codes(marked, arg);
                assert(names_code(arg, codes[0]) && marked.contains(codes[0]));
                let c = choose|c: int| 0 <= c < marked.len() && marked[c] == codes[0];
                assert(names_code(arg, marked[c]));
                lemma_all_outcomes(evaluation, names, Some(code));
            }
        },
    }
}

} // verus!
