//! What holds of plans for blocks with prompts or doc options, and for lines to mark.

use crate::apply;
use crate::apply_laws;
use crate::candidates;
use crate::candidates::PoolModel;
use crate::docs::BlockModel;
use crate::lightbulb;
use crate::lightbulb::CandidateModel;
use crate::lightbulb::FixModel;
use crate::lightbulb::PlanModel;
use crate::lines;
use crate::markers::MarkersModel;
use crate::markers::SectionModel;
use crate::options::OptionSide;
use crate::repo::CodeModel;
use vstd::prelude::*;

verus! {

/// Whether a line of a block starts with a shell prompt
pub open spec fn shows_a_prompt(content: Seq<char>) -> bool {
    exists|i: int|
        0 <= i < lines::lines_of(content).len() && starts_with_prompt(
            #[trigger] lines::lines_of(content)[i],
        )
}

/// Whether a line starts with a dollar sign and a space
pub open spec fn starts_with_prompt(line: Seq<char>) -> bool {
    line.len() >= 2 && line[0] == '$' && line[1] == ' '
}

proof fn lemma_prompts(content: Seq<char>)
    ensures
        shows_a_prompt(content) == lightbulb::has_prompts(content),
{
    let list = lines::lines_of(content);
    reveal_strlit("$ ");
    assert("$ "@ =~= seq!['$', ' ']);
    assert forall|i: int| 0 <= i < list.len() implies starts_with_prompt(#[trigger] list[i])
        == "$ "@.is_prefix_of(list[i]) by {
        if starts_with_prompt(list[i]) {
            assert(list[i].take(2) =~= "$ "@);
        }
        if "$ "@.is_prefix_of(list[i]) {
            assert(list[i].take(2)[0] == '$' && list[i].take(2)[1] == ' ');
        }
    }
    if shows_a_prompt(content) {
        let i = choose|i: int| 0 <= i < list.len() && starts_with_prompt(#[trigger] list[i]);
        assert("$ "@.is_prefix_of(list[i]));
    }
    if lightbulb::has_prompts(content) {
        let i = choose|i: int| 0 <= i < list.len() && "$ "@.is_prefix_of(#[trigger] list[i]);
        assert(starts_with_prompt(list[i]));
    }
}

/// When no fix makes code match a block with shell prompts, a plan for the block without
/// them is one for the block, with the doc option that strips them
pub proof fn law_plan_without_prompts(
    module: Seq<char>,
    content: Seq<char>,
    doc: Seq<char>,
    candidate: CandidateModel,
)
    requires
        candidate.marked_code matches Some(code) ==> code.doc_options.len() == 0,
        lightbulb::plan_against_spec(module, content, candidate) == Ok::<_, Seq<char>>(
            None::<Seq<FixModel>>,
        ),
        shows_a_prompt(content),
        !shows_a_prompt(doc),
        apply::apply_options_spec(
            content,
            seq![apply_laws::with_text("strip-line-prefix"@, "$ "@, OptionSide::Doc)],
        ) == Ok::<_, apply::MisfitModel>(doc),
    ensures
        lightbulb::plan_for_spec(module, doc, candidate) matches Ok(found)
            ==> lightbulb::plan_for_spec(module, content, candidate) == Ok::<_, Seq<char>>(
            match found {
                Some(plan) => Some(
                    PlanModel {
                        fixes: plan.fixes,
                        doc_options: seq![
                            apply_laws::with_text("strip-line-prefix"@, "$ "@, OptionSide::Doc),
                        ],
                    },
                ),
                None => None,
            },
        ),
{
    lemma_prompts(content);
    lemma_prompts(doc);
    assert(apply_laws::with_text("strip-line-prefix"@, "$ "@, OptionSide::Doc)
        == lightbulb::strip_prompt_spec());
}

/// Without shell prompts a plan is the fixes that make code match the block as it is, and
/// adds no doc options
pub proof fn law_plan_for_plain_block(
    module: Seq<char>,
    content: Seq<char>,
    candidate: CandidateModel,
)
    requires
        candidate.marked_code matches Some(code) ==> code.doc_options.len() == 0,
        !shows_a_prompt(content),
    ensures
        lightbulb::plan_for_spec(module, content, candidate) matches Ok(found) ==> match found {
            Some(plan) => plan.doc_options.len() == 0 && lightbulb::plan_against_spec(
                module,
                content,
                candidate,
            ) == Ok::<_, Seq<char>>(Some(plan.fixes)),
            None => lightbulb::plan_against_spec(module, content, candidate) == Ok::<_, Seq<char>>(
                None::<Seq<FixModel>>,
            ),
        },
{
    lemma_prompts(content);
}

/// A plan for code with doc options is one for the block with these applied, for the same
/// code without them
pub proof fn law_plan_with_doc_options(
    module: Seq<char>,
    content: Seq<char>,
    doc: Seq<char>,
    candidate: CandidateModel,
    bare: CandidateModel,
)
    requires
        candidate.marked_code matches Some(code) && code.doc_options.len() > 0
            && apply::apply_options_spec(content, code.doc_options) == Ok::<_, apply::MisfitModel>(
            doc,
        ) && bare == (CandidateModel {
            marked_code: Some(CodeModel { doc_options: Seq::empty(), ..code }),
            ..candidate
        }),
        !shows_a_prompt(doc),
    ensures
        lightbulb::plan_for_spec(module, doc, bare) matches Ok(found) ==> lightbulb::plan_for_spec(
            module,
            content,
            candidate,
        ) == Ok::<_, Seq<char>>(found),
{
    lemma_prompts(doc);
    let code = candidate.marked_code->0;
    let same = bare.marked_code->0;
    assert(same.content == code.content && same.options == code.options && same.placeholders
        == code.placeholders);
    assert(lightbulb::plan_against_spec(module, doc, candidate) == lightbulb::plan_against_spec(
        module,
        doc,
        bare,
    ));
}

/// A candidate of lines to mark has their numbers and their text
pub proof fn law_candidate_of_lines(
    block: BlockModel,
    entry: PoolModel,
    unprompted: Seq<char>,
    tokens: Seq<Seq<char>>,
    first: nat,
    count: nat,
)
    requires
        candidates::draft_spec(block, entry, unprompted, tokens) is Ok,
        candidates::plan_in(block, entry) matches Ok(Some(plan))
            && candidates::section_to_mark_spec(plan.fixes, 0) == Some((first, count)),
        1 <= first,
        1 <= count,
        first + count - 1 <= usize::MAX,
    ensures
        ({
            let info = candidates::draft_spec(block, entry, unprompted, tokens)->Ok_0.info;
            &&& info.lines matches Some((from, to)) && from == first && to == first + count - 1
            &&& info.content == candidates::section_text(entry.candidate.file_text, first, count)
            &&& info.kind == "lines"@
        }),
{
}

/// Whether lines are all between the markers of a section
pub open spec fn are_inside(section: SectionModel, from: int, to: int) -> bool {
    section.header.last_line < from && to < section.end_line
}

/// Lines that are inside a section already aren't marked as another
pub proof fn law_no_section_inside_another(
    module: Seq<char>,
    doc: Seq<char>,
    file_text: Seq<char>,
    found: MarkersModel,
)
    ensures
        lightbulb::portion_plan_spec(module, doc, file_text, found) matches Some(fixes)
            ==> fixes.len() == 1 && (fixes[0] matches FixModel::MarkSection {
            name,
            first_line,
            line_count,
            ..
        } && forall|k: int|
            0 <= k < found.sections.len() ==> !are_inside(
                #[trigger] found.sections[k],
                first_line as int,
                first_line + line_count - 1,
            )),
{
    let doc_lines = lightbulb::doc_lines_of(doc);
    let list = lines::split(file_text, '\n');
    let skip = !lightbulb::any_comment(doc_lines);
    let indexes = lightbulb::compared(list, skip);
    lightbulb::lemma_first_window(list, indexes, doc_lines, 0);
    lightbulb::lemma_compared(list, skip);
    lines::lemma_split(apply::without_newline(doc), '\n');
    if let Some(p) = lightbulb::first_window(list, indexes, doc_lines, 0) {
        let n = doc_lines.len() as int;
        assert(n > 0);
        assert(0 <= indexes[p] < list.len());
        if n > 1 {
            assert(indexes[p] < indexes[p + n - 1]);
        }
    }
}

} // verus!
