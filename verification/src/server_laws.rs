//! What holds of what the review server shows and of the requests that it takes.

use crate::candidates::CandidateInfoModel;
use crate::config::LinksModel;
use crate::docs;
use crate::eval::AssemblyEvalModel;
use crate::eval::BlockEvalModel;
use crate::eval::EvaluationModel;
use crate::eval::MatchModel;
use crate::eval;
use crate::ignored;
use crate::lines;
use crate::repo::CodeModel;
use crate::server::ApiErrorModel;
use crate::server::ApiStatus;
use crate::server::BlockDataModel;
use crate::server::CodeRefModel;
use crate::server::LinkModel;
use crate::server::LinkToModel;
use crate::server;
use crate::summary_laws;
use crate::text::CharClass;
use crate::text;
use crate::text_laws;
use vstd::prelude::*;

verus! {

// ---------------------------------------------------------------------------
// Paths
// ---------------------------------------------------------------------------

/// Whether `part` is one of the parts of a path, between slashes
pub open spec fn is_part(path: Seq<char>, part: Seq<char>) -> bool {
    !part.contains('/') && exists|before: Seq<char>, after: Seq<char>| #[trigger]
        is_between(path, before, part, after)
}

/// Whether a path is `part` with others before and after it
pub open spec fn is_between(
    path: Seq<char>,
    before: Seq<char>,
    part: Seq<char>,
    after: Seq<char>,
) -> bool {
    &&& path == before + part + after
    &&& before.len() > 0 ==> before.last() == '/'
    &&& after.len() > 0 ==> after[0] == '/'
}

proof fn lemma_part(path: Seq<char>, part: Seq<char>)
    ensures
        is_part(path, part) == lines::split(path, '/').contains(part),
{
    let parts = lines::split(path, '/');
    lines::lemma_split(path, '/');
    if is_part(path, part) {
        let (before, after) = choose|before: Seq<char>, after: Seq<char>| #[trigger]
            is_between(path, before, part, after);
        text_laws::lemma_pieces_around(before, part, after, '/');
    }
    if parts.contains(part) {
        let i = choose|i: int| 0 <= i < parts.len() && parts[i] == part;
        let (before, after) = text_laws::lemma_piece(path, '/', i);
        assert(is_between(path, before, part, after));
    }
}

/// Changes are passed over in `.git`, `node_modules` and `target`, wherever they are in
/// a path, and only there
pub proof fn law_generated_paths(path: Seq<char>)
    ensures
        server::is_generated_spec(path) == (is_part(path, ".git"@) || is_part(
            path,
            "node_modules"@,
        ) || is_part(path, "target"@)),
{
    let parts = lines::split(path, '/');
    lemma_part(path, ".git"@);
    lemma_part(path, "node_modules"@);
    lemma_part(path, "target"@);
    if server::is_generated_spec(path) {
        let i = choose|i: int|
            0 <= i < parts.len() && server::is_generated_dir(#[trigger] parts[i]);
        assert(parts.contains(parts[i]));
    }
    if parts.contains(".git"@) || parts.contains("node_modules"@) || parts.contains("target"@) {
        let i = choose|i: int|
            0 <= i < parts.len() && (parts[i] == ".git"@ || parts[i] == "node_modules"@ || parts[i]
                == "target"@);
        assert(server::is_generated_dir(parts[i]));
    }
}

/// A path is plain when it doesn't start with a slash, its first part isn't a dot and no
/// part goes up
pub proof fn law_plain_paths(path: Seq<char>)
    ensures
        server::is_plain_relative_spec(path) == {
            &&& path.len() == 0 || path[0] != '/'
            &&& path != seq!['.']
            &&& !(path.len() >= 2 && path[0] == '.' && path[1] == '/')
            &&& !is_part(path, seq!['.', '.'])
        },
{
    let parts = lines::split(path, '/');
    reveal_strlit(".");
    reveal_strlit("..");
    assert("."@ =~= seq!['.']);
    assert(".."@ =~= seq!['.', '.']);
    lemma_part(path, seq!['.', '.']);
    lines::lemma_split(path, '/');
    if path.contains('/') {
        let k = choose|k: int| 0 <= k < path.len() && path[k] == '/';
        let n = lemma_first_slash(path, k);
        lines::lemma_split_first(path, '/', n);
        assert(parts[0] == path.take(n));
        if n > 0 {
            assert(path.take(n)[0] == path[0]);
            assert(path[0] != '/') by {
                assert(path.take(n).contains(path.take(n)[0]));
            }
        }
        if n == 1 {
            assert(path.take(1) =~= seq![path[0]]);
            assert((path.take(1) =~= seq!['.']) == (path[0] == '.')) by {
                if path.take(1) =~= seq!['.'] {
                    assert(path.take(1)[0] == '.');
                }
            }
        } else if n >= 2 {
            assert(path.take(n).len() != 1);
            assert(path.take(n).contains(path.take(n)[1]));
        }
        if path == seq!['.'] {
            assert(path[k] == '.');
        }
    } else {
        lines::lemma_split_single(path, '/');
        if path.len() > 0 {
            assert(path.contains(path[0]));
        }
        if path.len() > 1 {
            assert(path.contains(path[1]));
        }
    }
}

/// The first slash, given one
proof fn lemma_first_slash(path: Seq<char>, k: int) -> (n: int)
    requires
        0 <= k < path.len(),
        path[k] == '/',
    ensures
        0 <= n <= k,
        path[n] == '/',
        !path.take(n).contains('/'),
    decreases k,
{
    let head = path.take(k);
    if head.contains('/') {
        let j = choose|j: int| 0 <= j < head.len() && head[j] == '/';
        lemma_first_slash(path, j)
    } else {
        k
    }
}

// ---------------------------------------------------------------------------
// What is shown
// ---------------------------------------------------------------------------

/// Whether what is shown of a block is about that block
pub open spec fn is_about(data: BlockDataModel, id: Seq<char>, found: BlockEvalModel) -> bool {
    let block = found.block;
    &&& data.assembly_id == id
    &&& data.reference == block.reference
    &&& data.module == block.module
    &&& data.lang == block.lang
    &&& data.seq == block.seq
    &&& data.line == block.line
    &&& data.content == block.content
    &&& data.section == block.section
    &&& data.lead == block.lead
}

/// Whether the blocks of a kind are shown, in order
pub open spec fn are_shown(
    shown: Seq<BlockDataModel>,
    id: Seq<char>,
    blocks: Seq<BlockEvalModel>,
) -> bool {
    &&& shown.len() == blocks.len()
    &&& forall|i: int| 0 <= i < blocks.len() ==> is_about(shown[i], id, #[trigger] blocks[i])
}

proof fn lemma_open(id: Seq<char>, blocks: Seq<BlockEvalModel>)
    ensures
        ({
            let shown = server::open_data(id, blocks);
            let wanted = blocks.filter(|found: BlockEvalModel| summary_laws::is_left(found));
            &&& are_shown(shown, id, wanted)
            &&& forall|i: int|
                0 <= i < wanted.len() ==> {
                    &&& shown[i].candidates == Some((#[trigger] wanted[i]).candidates)
                    &&& shown[i].formerly == Some(wanted[i].formerly)
                    &&& shown[i].matched_code is None
                    &&& shown[i].ignored_as is None
                }
        }),
    decreases blocks.len(),
{
    reveal(Seq::filter);
    if blocks.len() > 0 {
        lemma_open(id, blocks.drop_last());
    }
}

proof fn lemma_ignored(id: Seq<char>, blocks: Seq<BlockEvalModel>)
    ensures
        ({
            let shown = server::ignored_data(id, blocks);
            let wanted = blocks.filter(|found: BlockEvalModel| found.ignored_as is Some);
            &&& are_shown(shown, id, wanted)
            &&& forall|i: int|
                0 <= i < wanted.len() ==> shown[i].ignored_as == (#[trigger] wanted[i]).ignored_as
        }),
    decreases blocks.len(),
{
    reveal(Seq::filter);
    if blocks.len() > 0 {
        lemma_ignored(id, blocks.drop_last());
    }
}

/// Whether marked code is shown as what matches a block, with its values
pub open spec fn shows_match(
    shown: CodeRefModel,
    marked: Seq<CodeModel>,
    found: MatchModel,
) -> bool {
    &&& found.code < marked.len()
    &&& shown.id == marked[found.code as int].id
    &&& shown.file == marked[found.code as int].file
    &&& shown.snippet == marked[found.code as int].section
    &&& shown.lines == marked[found.code as int].lines
    &&& shown.marker_lines == marked[found.code as int].marker_lines
    &&& shown.options == marked[found.code as int].options
    &&& shown.doc_options == marked[found.code as int].doc_options
    &&& shown.values == Some(found.values)
}

/// Whether all matches of a block are shown, in order
pub open spec fn are_matches(
    shown: Option<Seq<CodeRefModel>>,
    marked: Seq<CodeModel>,
    found: Seq<MatchModel>,
) -> bool {
    &&& shown is Some
    &&& shown->0.len() == found.len()
    &&& forall|i: int| 0 <= i < found.len() ==> shows_match(shown->0[i], marked, #[trigger] found[i])
}

proof fn lemma_matches(marked: Seq<CodeModel>, list: Seq<MatchModel>)
    requires
        server::matched_refs(marked, list) is Ok,
    ensures
        are_matches(Some(server::matched_refs(marked, list)->Ok_0), marked, list),
    decreases list.len(),
{
    if list.len() > 0 {
        lemma_matches(marked, list.drop_last());
        let shown = server::matched_refs(marked, list)->Ok_0;
        let before = server::matched_refs(marked, list.drop_last())->Ok_0;
        assert forall|i: int| 0 <= i < list.len() implies shows_match(
            shown[i],
            marked,
            #[trigger] list[i],
        ) by {
            if i < list.len() - 1 {
                assert(list.drop_last()[i] == list[i]);
                assert(shown[i] == before[i]);
            }
        }
    }
}

proof fn lemma_resolved(marked: Seq<CodeModel>, id: Seq<char>, blocks: Seq<BlockEvalModel>)
    requires
        server::resolved_data(marked, id, blocks) is Ok,
    ensures
        ({
            let shown = server::resolved_data(marked, id, blocks)->Ok_0;
            let wanted = blocks.filter(|found: BlockEvalModel| found.matches.len() > 0);
            &&& are_shown(shown, id, wanted)
            &&& forall|i: int|
                0 <= i < wanted.len() ==> are_matches(
                    shown[i].matched_code,
                    marked,
                    (#[trigger] wanted[i]).matches,
                )
        }),
    decreases blocks.len(),
{
    reveal(Seq::filter);
    if blocks.len() > 0 {
        lemma_resolved(marked, id, blocks.drop_last());
        if blocks.last().matches.len() > 0 {
            lemma_matches(marked, blocks.last().matches);
        }
    }
}

/// An assembly is shown with its blocks that are left, those that marked code matches,
/// each with all of that code, and those that are ignored, each with the reason
pub proof fn law_guide(marked: Seq<CodeModel>, assembly: AssemblyEvalModel)
    requires
        server::guide_spec(marked, assembly) is Ok,
    ensures
        ({
            let guide = server::guide_spec(marked, assembly)->Ok_0;
            let id = assembly.assembly.id;
            let blocks = assembly.blocks;
            let left = blocks.filter(|found: BlockEvalModel| summary_laws::is_left(found));
            let resolved = blocks.filter(|found: BlockEvalModel| found.matches.len() > 0);
            let ignored = blocks.filter(|found: BlockEvalModel| found.ignored_as is Some);
            &&& guide.id == id
            &&& guide.title == assembly.assembly.title
            &&& are_shown(guide.blocks, id, left)
            &&& are_shown(guide.resolved, id, resolved)
            &&& are_shown(guide.ignored, id, ignored)
            &&& forall|i: int|
                0 <= i < left.len() ==> guide.blocks[i].candidates == Some(
                    (#[trigger] left[i]).candidates,
                )
            &&& forall|i: int|
                0 <= i < resolved.len() ==> are_matches(
                    guide.resolved[i].matched_code,
                    marked,
                    (#[trigger] resolved[i]).matches,
                )
            &&& forall|i: int|
                0 <= i < ignored.len() ==> guide.ignored[i].ignored_as == (
                #[trigger] ignored[i]).ignored_as
        }),
{
    let id = assembly.assembly.id;
    lemma_open(id, assembly.blocks);
    lemma_ignored(id, assembly.blocks);
    lemma_resolved(marked, id, assembly.blocks);
}

/// Everything is shown: each assembly, in order, how many blocks there are, what is
/// ignored and stale, and the problems
pub proof fn law_report(docs: Seq<char>, links: LinksModel, found: EvaluationModel)
    requires
        server::report_spec(docs, links, found) is Ok,
    ensures
        ({
            let shown = server::report_spec(docs, links, found)->Ok_0;
            &&& shown.guides.len() == found.assemblies.len()
            &&& forall|i: int|
                0 <= i < found.assemblies.len() ==> server::guide_spec(
                    found.scan.marked,
                    #[trigger] found.assemblies[i],
                ) == Ok::<_, Seq<char>>(shown.guides[i])
            &&& shown.total_blocks == eval::all_blocks(found.assemblies).len()
            &&& shown.stale_ignored == found.stale_ignored
            &&& shown.problems == found.scan.problems
            &&& shown.docs_location == docs
            &&& shown.links == links
            &&& shown.marked_code.len() == found.scan.marked.len()
        }),
{
    lemma_guides(found.scan.marked, found.assemblies);
}

proof fn lemma_guides(marked: Seq<CodeModel>, assemblies: Seq<AssemblyEvalModel>)
    requires
        server::guides_spec(marked, assemblies) is Ok,
    ensures
        ({
            let guides = server::guides_spec(marked, assemblies)->Ok_0;
            &&& guides.len() == assemblies.len()
            &&& forall|i: int|
                0 <= i < assemblies.len() ==> server::guide_spec(marked, #[trigger] assemblies[i])
                    == Ok::<_, Seq<char>>(guides[i])
        }),
    decreases assemblies.len(),
{
    if assemblies.len() > 0 {
        let head = assemblies.drop_last();
        lemma_guides(marked, head);
        let guides = server::guides_spec(marked, assemblies)->Ok_0;
        assert forall|i: int| 0 <= i < assemblies.len() implies server::guide_spec(
            marked,
            #[trigger] assemblies[i],
        ) == Ok::<_, Seq<char>>(guides[i]) by {
            if i < head.len() {
                assert(head[i] == assemblies[i]);
            }
        }
    }
}

/// Whether a block is linked to code: a match is with the code at an index, or a
/// candidate is the code with an id
pub open spec fn is_linked(found: BlockEvalModel, to: LinkToModel) -> bool {
    match to {
        LinkToModel::Match(code) => exists|i: int|
            0 <= i < found.matches.len() && (#[trigger] found.matches[i]).code == code,
        LinkToModel::Candidate(id) => exists|i: int|
            0 <= i < found.candidates.len() && (#[trigger] found.candidates[i]).id == id,
    }
}

proof fn lemma_match_at(list: Seq<MatchModel>, code: int, from: int)
    requires
        0 <= from <= list.len(),
    ensures
        server::match_at(list, code, from) is Some == (exists|i: int|
            from <= i < list.len() && (#[trigger] list[i]).code == code),
    decreases list.len() - from,
{
    if from < list.len() && list[from].code != code {
        lemma_match_at(list, code, from + 1);
    }
}

/// The first candidate with an id
proof fn lemma_candidate_with(list: Seq<CandidateInfoModel>, id: Seq<char>, from: int)
    requires
        0 <= from <= list.len(),
    ensures
        match server::candidate_with(list, id, from) {
            Some(found) => exists|i: int| #[trigger]
                is_first_with(list, id, from, i) && list[i] == found,
            None => forall|i: int| from <= i < list.len() ==> (#[trigger] list[i]).id != id,
        },
    decreases list.len() - from,
{
    if from < list.len() {
        if list[from].id == id {
            assert(is_first_with(list, id, from, from));
        } else {
            lemma_candidate_with(list, id, from + 1);
            if let Some(found) = server::candidate_with(list, id, from + 1) {
                let i = choose|i: int| #[trigger]
                    is_first_with(list, id, from + 1, i) && list[i] == found;
                assert(is_first_with(list, id, from, i));
            }
        }
    }
}

/// Whether the `i`th candidate is the first one with an id
pub open spec fn is_first_with(
    list: Seq<CandidateInfoModel>,
    id: Seq<char>,
    from: int,
    i: int,
) -> bool {
    &&& from <= i < list.len()
    &&& list[i].id == id
    &&& forall|j: int| from <= j < i ==> (#[trigger] list[j]).id != id
}

/// The links to code from an assembly are to its blocks that are linked to it, in order
pub proof fn law_links(id: Seq<char>, blocks: Seq<BlockEvalModel>, to: LinkToModel)
    ensures
        ({
            let links = server::links_in(id, blocks, to);
            let wanted = blocks.filter(|found: BlockEvalModel| is_linked(found, to));
            &&& links.len() == wanted.len()
            &&& forall|i: int|
                0 <= i < wanted.len() ==> links[i].reference == (
                #[trigger] wanted[i]).block.reference && links[i].assembly_id == id
        }),
    decreases blocks.len(),
{
    reveal(Seq::filter);
    if blocks.len() > 0 {
        law_links(id, blocks.drop_last(), to);
        match to {
            LinkToModel::Match(code) => {
                lemma_match_at(blocks.last().matches, code, 0);
            },
            LinkToModel::Candidate(other) => {
                lemma_candidate_with(blocks.last().candidates, other, 0);
                if is_linked(blocks.last(), to) {
                    let list = blocks.last().candidates;
                    let i = choose|i: int| 0 <= i < list.len() && (#[trigger] list[i]).id == other;
                    assert(list[i].id == other);
                }
            },
        }
    }
}

/// The links from several assemblies are those from each of them
pub proof fn law_links_of_all(
    first: Seq<AssemblyEvalModel>,
    last: AssemblyEvalModel,
    to: LinkToModel,
)
    ensures
        server::links_spec(first.push(last), to) == server::links_spec(first, to)
            + server::links_in(last.assembly.id, last.blocks, to),
        server::links_spec(Seq::empty(), to) == Seq::<LinkModel>::empty(),
{
    assert(first.push(last).drop_last() =~= first);
}

// ---------------------------------------------------------------------------
// Requests
// ---------------------------------------------------------------------------

/// Whether the block with a reference in the assembly with an id is there
pub open spec fn has_block(
    evaluation: EvaluationModel,
    id: Seq<char>,
    reference: Seq<char>,
) -> bool {
    exists|i: int, k: int| #[trigger] is_block_at(evaluation, id, reference, i, k)
}

/// Whether the `k`th block of the `i`th assembly has a reference, and the assembly an id
pub open spec fn is_block_at(
    evaluation: EvaluationModel,
    id: Seq<char>,
    reference: Seq<char>,
    i: int,
    k: int,
) -> bool {
    &&& 0 <= i < evaluation.assemblies.len()
    &&& evaluation.assemblies[i].assembly.id == id
    &&& 0 <= k < evaluation.assemblies[i].blocks.len()
    &&& evaluation.assemblies[i].blocks[k].block.reference == reference
}

proof fn lemma_with_reference(blocks: Seq<BlockEvalModel>, reference: Seq<char>, from: int)
    requires
        0 <= from <= blocks.len(),
    ensures
        match eval::with_reference(blocks, reference, from) {
            Some(found) => exists|k: int|
                from <= k < blocks.len() && #[trigger] blocks[k] == found
                    && found.block.reference == reference,
            None => forall|k: int|
                from <= k < blocks.len() ==> (#[trigger] blocks[k]).block.reference != reference,
        },
    decreases blocks.len() - from,
{
    if from < blocks.len() && blocks[from].block.reference != reference {
        lemma_with_reference(blocks, reference, from + 1);
    }
}

proof fn lemma_find(evaluation: EvaluationModel, id: Seq<char>, reference: Seq<char>, from: int)
    requires
        0 <= from <= evaluation.assemblies.len(),
    ensures
        match eval::find_spec(evaluation.assemblies, id, reference, from) {
            Some(found) => exists|i: int, k: int| #[trigger]
                is_block_at(evaluation, id, reference, i, k)
                    && evaluation.assemblies[i].blocks[k] == found,
            None => forall|i: int, k: int|
                from <= i ==> !#[trigger] is_block_at(evaluation, id, reference, i, k),
        },
    decreases evaluation.assemblies.len() - from,
{
    if from < evaluation.assemblies.len() {
        let here = evaluation.assemblies[from];
        lemma_with_reference(here.blocks, reference, 0);
        lemma_find(evaluation, id, reference, from + 1);
        if here.assembly.id == id {
            if let Some(found) = eval::with_reference(here.blocks, reference, 0) {
                let k = choose|k: int|
                    0 <= k < here.blocks.len() && #[trigger] here.blocks[k] == found
                        && found.block.reference == reference;
                assert(is_block_at(evaluation, id, reference, from, k));
            }
        }
    }
}

/// A request for a block gets it when it is there, and otherwise that it isn't found
pub proof fn law_find_block(evaluation: EvaluationModel, id: Seq<char>, reference: Seq<char>)
    ensures
        match server::find_block_spec(evaluation, id, reference) {
            Ok(found) => exists|i: int, k: int| #[trigger]
                is_block_at(evaluation, id, reference, i, k)
                    && evaluation.assemblies[i].blocks[k] == found,
            Err(error) => error.status == ApiStatus::NotFound && !has_block(
                evaluation,
                id,
                reference,
            ),
        },
{
    lemma_find(evaluation, id, reference, 0);
}

/// A request to fix a block gets the plan of the block's first candidate with the id. It
/// is in conflict when there is no such candidate or plan, and not found when there is
/// no such block
pub proof fn law_fix_request(
    evaluation: EvaluationModel,
    id: Seq<char>,
    reference: Seq<char>,
    candidate_id: Seq<char>,
)
    ensures
        ({
            let found = server::find_block_spec(evaluation, id, reference);
            match server::apply_fix_spec(evaluation, id, reference, candidate_id) {
                Ok(request) => {
                    &&& found is Ok
                    &&& request.candidate_id == candidate_id
                    &&& exists|i: int| #[trigger]
                        is_first_with(found->Ok_0.candidates, candidate_id, 0, i)
                            && found->Ok_0.candidates[i].plan == Some(request.plan)
                            && found->Ok_0.candidates[i].file == request.file
                            && found->Ok_0.candidates[i].name == request.name
                },
                Err(error) => {
                    &&& (error.status == ApiStatus::NotFound) == !has_block(
                        evaluation,
                        id,
                        reference,
                    )
                    &&& error.status == ApiStatus::NotFound || error.status == ApiStatus::Conflict
                    &&& found is Ok ==> forall|i: int| #[trigger]
                        is_first_with(found->Ok_0.candidates, candidate_id, 0, i)
                            ==> found->Ok_0.candidates[i].plan is None
                },
            }
        }),
{
    law_find_block(evaluation, id, reference);
    if let Ok(found) = server::find_block_spec(evaluation, id, reference) {
        lemma_candidate_with(found.candidates, candidate_id, 0);
        let (i, k) = choose|i: int, k: int| #[trigger]
            is_block_at(evaluation, id, reference, i, k)
                && evaluation.assemblies[i].blocks[k] == found;
        assert(has_block(evaluation, id, reference));
        if let Some(first) = server::candidate_with(found.candidates, candidate_id, 0) {
            let i = choose|i: int| #[trigger]
                is_first_with(found.candidates, candidate_id, 0, i) && found.candidates[i] == first;
            assert forall|j: int| #[trigger]
                is_first_with(found.candidates, candidate_id, 0, j) implies j == i by {
                if j < i {
                    assert(found.candidates[j].id != candidate_id);
                } else if i < j {
                    assert(found.candidates[i].id != candidate_id);
                }
            }
        } else {
            assert forall|j: int| !#[trigger] is_first_with(
                found.candidates,
                candidate_id,
                0,
                j,
            ) by {
                if is_first_with(found.candidates, candidate_id, 0, j) {
                    assert(found.candidates[j].id != candidate_id);
                }
            }
        }
    }
}

/// A block can be ignored as example output, a manual command or without a source in the
/// repo, and for no other reason
pub proof fn law_ignore_request(
    evaluation: EvaluationModel,
    id: Seq<char>,
    reference: Seq<char>,
    reason: Seq<char>,
)
    ensures
        ({
            let known = reason == "example-output"@ || reason == "manual-command"@ || reason
                == "no-repo-source"@;
            match server::ignore_spec(evaluation, id, reference, reason) {
                Ok(found) => known && server::find_block_spec(evaluation, id, reference) == Ok::<
                    _,
                    ApiErrorModel,
                >(found),
                Err(error) => {
                    &&& (error.status == ApiStatus::BadRequest) == !known
                    &&& (error.status == ApiStatus::NotFound) == (known && !has_block(
                        evaluation,
                        id,
                        reference,
                    ))
                },
            }
        }),
{
    let reasons = ignored::reasons();
    assert(reasons[0] == "example-output"@ && reasons[1] == "manual-command"@ && reasons[2]
        == "no-repo-source"@);
    if reasons.contains(reason) {
        let i = choose|i: int| 0 <= i < reasons.len() && reasons[i] == reason;
        assert(i == 0 || i == 1 || i == 2);
    }
    law_find_block(evaluation, id, reference);
}

/// Only a block that is ignored can stop being ignored
pub proof fn law_unignore_request(
    evaluation: EvaluationModel,
    id: Seq<char>,
    reference: Seq<char>,
)
    ensures
        match server::unignore_spec(evaluation, id, reference) {
            Ok(found) => found.ignored_as is Some && server::find_block_spec(
                evaluation,
                id,
                reference,
            ) == Ok::<_, ApiErrorModel>(found),
            Err(error) => error.status == ApiStatus::NotFound && (server::find_block_spec(
                evaluation,
                id,
                reference,
            ) matches Ok(found) ==> found.ignored_as is None),
        },
{
}

/// Whether the assembly in the `i`th file has an id
pub open spec fn is_assembly_at(
    paths: Seq<Seq<char>>,
    texts: Seq<Result<Seq<char>, Seq<char>>>,
    id: Seq<char>,
    i: int,
) -> bool {
    &&& 0 <= i < paths.len()
    &&& texts[i] is Ok
    &&& docs::assembly_spec(paths[i], texts[i]->Ok_0) matches Ok(assembly) && assembly.id == id
}

/// The path of an assembly is that of the first file whose assembly has its id. There is
/// none when all files can be read and no assembly has it
pub proof fn law_find_assembly(
    paths: Seq<Seq<char>>,
    texts: Seq<Result<Seq<char>, Seq<char>>>,
    id: Seq<char>,
)
    requires
        paths.len() == texts.len(),
    ensures
        match server::find_assembly_spec(paths, texts, id, 0) {
            Ok(Some(path)) => exists|i: int| #[trigger]
                is_assembly_at(paths, texts, id, i) && paths[i] == path && (forall|j: int|
                    0 <= j < i ==> !#[trigger] is_assembly_at(paths, texts, id, j)),
            Ok(None) => forall|i: int| !#[trigger] is_assembly_at(paths, texts, id, i),
            Err(_) => exists|i: int|
                0 <= i < paths.len() && !(#[trigger] texts[i] is Ok && docs::assembly_spec(
                    paths[i],
                    texts[i]->Ok_0,
                ) is Ok),
        },
{
    lemma_find_assembly(paths, texts, id, 0);
}

proof fn lemma_find_assembly(
    paths: Seq<Seq<char>>,
    texts: Seq<Result<Seq<char>, Seq<char>>>,
    id: Seq<char>,
    from: int,
)
    requires
        0 <= from <= paths.len(),
        paths.len() == texts.len(),
        forall|j: int| 0 <= j < from ==> !#[trigger] is_assembly_at(paths, texts, id, j),
    ensures
        match server::find_assembly_spec(paths, texts, id, from) {
            Ok(Some(path)) => exists|i: int| #[trigger]
                is_assembly_at(paths, texts, id, i) && paths[i] == path && (forall|j: int|
                    0 <= j < i ==> !#[trigger] is_assembly_at(paths, texts, id, j)),
            Ok(None) => forall|i: int| !#[trigger] is_assembly_at(paths, texts, id, i),
            Err(_) => exists|i: int|
                0 <= i < paths.len() && !(#[trigger] texts[i] is Ok && docs::assembly_spec(
                    paths[i],
                    texts[i]->Ok_0,
                ) is Ok),
        },
    decreases paths.len() - from,
{
    if from < paths.len() {
        if is_assembly_at(paths, texts, id, from) {
        } else if texts[from] is Ok && docs::assembly_spec(paths[from], texts[from]->Ok_0) is Ok {
            lemma_find_assembly(paths, texts, id, from + 1);
        }
    }
}

/// A module's name is made of ASCII letters and digits, underscores, dots and hyphens
pub proof fn law_module_names(module: Seq<char>)
    ensures
        text::all_of(module, CharClass::Module) == (forall|i: int|
            0 <= i < module.len() ==> is_module_char(#[trigger] module[i])),
{
    if forall|i: int| 0 <= i < module.len() ==> is_module_char(#[trigger] module[i]) {
        assert forall|i: int| 0 <= i < module.len() implies CharClass::Module.has(
            #[trigger] module[i],
        ) by {
            assert(is_module_char(module[i]));
        }
    }
    if text::all_of(module, CharClass::Module) {
        assert forall|i: int| 0 <= i < module.len() implies is_module_char(
            #[trigger] module[i],
        ) by {
            assert(CharClass::Module.has(module[i]));
        }
    }
}

/// Whether a character may be in a module's name
pub open spec fn is_module_char(c: char) -> bool {
    ||| 'a' <= c <= 'z'
    ||| 'A' <= c <= 'Z'
    ||| '0' <= c <= '9'
    ||| c == '_'
    ||| c == '.'
    ||| c == '-'
}

} // verus!
