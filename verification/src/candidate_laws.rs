//! What holds of the code that blocks are compared with.

use crate::apply_laws;
use crate::candidates::BlockDraftModel;
use crate::candidates::CandidateInfoModel;
use crate::candidates::ClosestModel;
use crate::candidates::FormerlyModel;
use crate::candidates::PoolModel;
use crate::candidates;
use crate::docs::BlockModel;
use crate::eval::AssemblyEvalModel;
use crate::eval::BlockEvalModel;
use crate::eval;
use crate::lightbulb::FixModel;
use crate::lightbulb::PlanModel;
use crate::lightbulb;
use crate::lines;
use crate::options::OptionModel;
use crate::options::OptionSide;
use crate::repo::CodeModel;
use crate::repo::FileModel;
use crate::repo::RepoModel;
use crate::similarity;
use crate::summary_laws;
use vstd::prelude::*;

verus! {

// ---------------------------------------------------------------------------
// The pool
// ---------------------------------------------------------------------------

/// Whether the `i`th file is the last one with a path
pub open spec fn is_last_at(files: Seq<FileModel>, path: Seq<char>, i: int) -> bool {
    &&& 0 <= i < files.len()
    &&& files[i].file == path
    &&& forall|j: int| i < j < files.len() ==> (#[trigger] files[j]).file != path
}

/// Whether there is a file with a path
pub open spec fn is_there(files: Seq<FileModel>, path: Seq<char>) -> bool {
    exists|i: int| 0 <= i < files.len() && (#[trigger] files[i]).file == path
}

proof fn lemma_file_at(files: Seq<FileModel>, path: Seq<char>)
    ensures
        candidates::file_at(files, path) is Some == is_there(files, path),
        candidates::file_at(files, path) matches Some(file) ==> exists|i: int| #[trigger]
            is_last_at(files, path, i) && files[i] == file,
    decreases files.len(),
{
    if files.len() > 0 {
        let head = files.drop_last();
        let n = files.len() - 1;
        lemma_file_at(head, path);
        if files[n].file == path {
            assert(is_last_at(files, path, n));
        } else {
            if let Some(file) = candidates::file_at(head, path) {
                let i = choose|i: int| #[trigger] is_last_at(head, path, i) && head[i] == file;
                assert forall|j: int| i < j < files.len() implies (#[trigger] files[j]).file
                    != path by {
                    if j < n {
                        assert(head[j].file != path);
                    }
                }
                assert(is_last_at(files, path, i));
            }
            if is_there(files, path) {
                let i = choose|i: int| 0 <= i < files.len() && (#[trigger] files[i]).file == path;
                assert(head[i].file == path);
            }
        }
    }
}

/// Whether an entry stands for marked code: by its id and section, with the text and the
/// markers of its file, and compared by the tokens of the code alone
pub open spec fn stands_for_code(
    entry: PoolModel,
    code: CodeModel,
    files: Seq<FileModel>,
) -> bool {
    &&& entry.id == code.id
    &&& entry.section == code.section
    &&& entry.candidate.file == code.file
    &&& entry.candidate.marked_code == Some(code)
    &&& entry.tokens == similarity::tokens_of(code.content)
    &&& exists|i: int| #[trigger]
        is_last_at(files, code.file, i) && entry.candidate.file_text == files[i].text
            && entry.candidate.markers == files[i].markers
}

/// Whether an entry stands for a whole file
pub open spec fn stands_for_file(entry: PoolModel, file: FileModel) -> bool {
    &&& entry.id == file.file
    &&& entry.section is None
    &&& entry.candidate.file == file.file
    &&& entry.candidate.marked_code is None
    &&& entry.candidate.file_text == file.text
    &&& entry.candidate.markers == file.markers
    &&& entry.tokens == similarity::tokens_of(file.text)
}

proof fn lemma_marked(marked: Seq<CodeModel>, files: Seq<FileModel>)
    ensures
        ({
            let found = candidates::marked_entries(marked, files);
            let wanted = marked.filter(|code: CodeModel| is_there(files, code.file));
            &&& found.len() == wanted.len()
            &&& forall|i: int|
                0 <= i < wanted.len() ==> stands_for_code(found[i], #[trigger] wanted[i], files)
        }),
    decreases marked.len(),
{
    reveal(Seq::filter);
    if marked.len() > 0 {
        lemma_marked(marked.drop_last(), files);
        lemma_file_at(files, marked.last().file);
        if let Some(file) = candidates::file_at(files, marked.last().file) {
            assert(stands_for_code(
                candidates::marked_entry(marked.last(), file),
                marked.last(),
                files,
            ));
        }
    }
}

proof fn lemma_unmarked(files: Seq<FileModel>)
    ensures
        ({
            let found = candidates::unmarked_entries(files);
            let wanted = files.filter(|file: FileModel| file.markers.file is None);
            &&& found.len() == wanted.len()
            &&& forall|i: int|
                0 <= i < wanted.len() ==> stands_for_file(found[i], #[trigger] wanted[i])
        }),
    decreases files.len(),
{
    reveal(Seq::filter);
    if files.len() > 0 {
        lemma_unmarked(files.drop_last());
    }
}

/// Blocks are compared with all marked code whose file is there, and then with every
/// file that isn't marked whole
pub proof fn law_pool(scan: RepoModel)
    ensures
        ({
            let pool = candidates::pool_spec(scan);
            let codes = scan.marked.filter(|code: CodeModel| is_there(scan.files, code.file));
            let files = scan.files.filter(|file: FileModel| file.markers.file is None);
            &&& pool.len() == codes.len() + files.len()
            &&& forall|i: int|
                0 <= i < codes.len() ==> stands_for_code(pool[i], #[trigger] codes[i], scan.files)
            &&& forall|i: int|
                0 <= i < files.len() ==> stands_for_file(
                    pool[codes.len() + i],
                    #[trigger] files[i],
                )
        }),
{
    lemma_marked(scan.marked, scan.files);
    lemma_unmarked(scan.files);
}

// ---------------------------------------------------------------------------
// A candidate
// ---------------------------------------------------------------------------

/// The text of some lines of a file is those lines, each with its end
pub proof fn law_section_text(before: Seq<Seq<char>>, part: Seq<Seq<char>>, after: Seq<Seq<char>>)
    requires
        part.len() > 0,
        forall|i: int|
            0 <= i < (before + part + after).len() ==> !(#[trigger] (before + part
                + after)[i]).contains('\n'),
    ensures
        candidates::section_text(
            lines::join(before + part + after, seq!['\n']),
            (before.len() + 1) as nat,
            part.len(),
        ) == lines::join(part, seq!['\n']) + seq!['\n'],
{
    let all = before + part + after;
    reveal_strlit("\n");
    assert("\n"@ =~= seq!['\n']);
    lines::lemma_split_join(all, '\n');
    assert(all.subrange(before.len() as int, (before.len() + part.len()) as int) =~= part);
}

/// The lines to mark are those of the first fix that marks some
pub proof fn law_lines_to_mark(fixes: Seq<FixModel>)
    ensures
        match candidates::section_to_mark_spec(fixes, 0) {
            Some((first, count)) => exists|i: int|
                0 <= i < fixes.len() && ((#[trigger] fixes[i]) matches FixModel::MarkSection {
                    first_line,
                    line_count,
                    ..
                } && first_line == first && line_count == count) && no_marks(fixes, 0, i),
            None => no_marks(fixes, 0, fixes.len() as int),
        },
{
    lemma_lines_to_mark(fixes, 0);
}

/// Whether none of some fixes marks lines
pub open spec fn no_marks(fixes: Seq<FixModel>, from: int, to: int) -> bool {
    forall|j: int| from <= j < to ==> !((#[trigger] fixes[j]) is MarkSection)
}

proof fn lemma_lines_to_mark(fixes: Seq<FixModel>, from: int)
    requires
        0 <= from <= fixes.len(),
    ensures
        match candidates::section_to_mark_spec(fixes, from) {
            Some((first, count)) => exists|i: int|
                from <= i < fixes.len() && ((#[trigger] fixes[i]) matches FixModel::MarkSection {
                    first_line,
                    line_count,
                    ..
                } && first_line == first && line_count == count) && no_marks(fixes, from, i),
            None => no_marks(fixes, from, fixes.len() as int),
        },
    decreases fixes.len() - from,
{
    if from < fixes.len() {
        if fixes[from] is MarkSection {
            assert(no_marks(fixes, from, from));
        } else {
            lemma_lines_to_mark(fixes, from + 1);
            if let Some((first, count)) = candidates::section_to_mark_spec(fixes, from + 1) {
                let i = choose|i: int|
                    from + 1 <= i < fixes.len() && ((
                    #[trigger] fixes[i]) matches FixModel::MarkSection {
                        first_line,
                        line_count,
                        ..
                    } && first_line == first && line_count == count) && no_marks(
                        fixes,
                        from + 1,
                        i,
                    );
                assert(no_marks(fixes, from, i));
            }
        }
    }
}

/// A candidate is of the code it stands for. With a plan that makes it match it counts
/// as like the block entirely, and nothing is compared. Without one it is compared with
/// the block
pub proof fn law_candidate(
    block: BlockModel,
    entry: PoolModel,
    unprompted: Seq<char>,
    tokens: Seq<Seq<char>>,
)
    requires
        candidates::draft_spec(block, entry, unprompted, tokens) is Ok,
    ensures
        ({
            let draft = candidates::draft_spec(block, entry, unprompted, tokens)->Ok_0;
            let info = draft.info;
            &&& info.id == entry.id
            &&& info.file == entry.candidate.file
            &&& info.name == entry.section
            &&& info.file_text == entry.candidate.file_text
            &&& info.plan is Some == (draft.comparison is None)
            &&& info.plan is Some ==> info.similarity == 0x3FF0_0000_0000_0000u64
            &&& draft.comparison matches Some(comparison) ==> comparison
                == similarity::comparison_spec(tokens, entry.tokens, unprompted, info.content)
            &&& entry.candidate.marked_code matches Some(code) ==> {
                &&& info.options == code.options
                &&& info.placeholders == code.placeholders
                &&& info.marker_lines == code.marker_lines
                &&& code.doc_options.len() > 0 ==> info.doc_options == code.doc_options
            }
        }),
{
}

/// An unmarked file that no plan marks lines of is compared as a whole, and the block as
/// it is
pub proof fn law_unmarked_candidate(
    block: BlockModel,
    entry: PoolModel,
    unprompted: Seq<char>,
    tokens: Seq<Seq<char>>,
)
    requires
        candidates::draft_spec(block, entry, unprompted, tokens) is Ok,
        entry.candidate.marked_code is None,
        candidates::plan_in(block, entry) == Ok::<_, Seq<char>>(None::<PlanModel>),
    ensures
        ({
            let info = candidates::draft_spec(block, entry, unprompted, tokens)->Ok_0.info;
            &&& info.kind == "unmarked-file"@
            &&& info.content == entry.candidate.file_text
            &&& info.lines is None
            &&& info.options == Seq::<OptionModel>::empty()
            &&& info.doc_options == Seq::<OptionModel>::empty()
            &&& info.placeholders == Seq::<Seq<char>>::empty()
        }),
{
}

/// A candidate is lines to mark when a plan marks some, with their numbers; otherwise a
/// marked section, a marked file or an unmarked file
pub proof fn law_candidate_kind(
    block: BlockModel,
    entry: PoolModel,
    unprompted: Seq<char>,
    tokens: Seq<Seq<char>>,
)
    requires
        candidates::draft_spec(block, entry, unprompted, tokens) is Ok,
    ensures
        ({
            let info = candidates::draft_spec(block, entry, unprompted, tokens)->Ok_0.info;
            let marks = info.plan is Some && !no_marks(
                info.plan->0.fixes,
                0,
                info.plan->0.fixes.len() as int,
            );
            let code = entry.candidate.marked_code;
            &&& (info.kind == "lines"@) == marks
            &&& (info.kind == "section"@) == (!marks && code is Some && code->0.section is Some)
            &&& (info.kind == "file"@) == (!marks && code is Some && code->0.section is None)
            &&& (info.kind == "unmarked-file"@) == (!marks && code is None)
            &&& !marks && code is Some ==> info.lines == code->0.lines
        }),
{
    let info = candidates::draft_spec(block, entry, unprompted, tokens)->Ok_0.info;
    reveal_strlit("lines");
    reveal_strlit("section");
    reveal_strlit("file");
    reveal_strlit("unmarked-file");
    assert("lines"@.len() == 5 && "section"@.len() == 7 && "file"@.len() == 4
        && "unmarked-file"@.len() == 13);
    if let Some(plan) = info.plan {
        law_lines_to_mark(plan.fixes);
    }
}

// ---------------------------------------------------------------------------
// The best candidates
// ---------------------------------------------------------------------------

/// Whether a candidate is worth showing: a plan makes it match, or it is like the block
/// by three tenths or more
pub open spec fn is_worth_showing(info: CandidateInfoModel) -> bool {
    info.plan is Some || info.similarity >= 0x3FD3_3333_3333_3333u64
}

/// Whether one candidate goes before another: those with a plan first, and of two with
/// or two without, the one that is more like the block
pub open spec fn goes_before(first: CandidateInfoModel, second: CandidateInfoModel) -> bool {
    ||| first.plan is Some && second.plan is None
    ||| first.plan is Some == second.plan is Some && first.similarity > second.similarity
}

proof fn lemma_kept(list: Seq<CandidateInfoModel>)
    ensures
        candidates::kept(list) == list.filter(|info: CandidateInfoModel| is_worth_showing(info)),
    decreases list.len(),
{
    reveal(Seq::filter);
    if list.len() > 0 {
        lemma_kept(list.drop_last());
    }
}

/// The best candidates are the first five of all that are worth showing, with none after
/// one that it goes before
pub proof fn law_best(list: Seq<CandidateInfoModel>)
    ensures
        ({
            let best = candidates::best(list);
            let all = candidates::ranked(list);
            let worth = list.filter(|info: CandidateInfoModel| is_worth_showing(info));
            &&& all.to_multiset() == worth.to_multiset()
            &&& best.len() == if worth.len() > 5 {
                5
            } else {
                worth.len()
            }
            &&& best == all.take(best.len() as int)
            &&& forall|i: int, j: int|
                0 <= i < j < all.len() ==> !goes_before(#[trigger] all[j], #[trigger] all[i])
        }),
{
    broadcast use vstd::seq_lib::group_to_multiset_ensures;

    candidates::law_candidates_are_ranked(list);
    lemma_kept(list);
    let all = candidates::ranked(list);
    let worth = list.filter(|info: CandidateInfoModel| is_worth_showing(info));
    assert(all.to_multiset().len() == all.len());
    assert(worth.to_multiset().len() == worth.len());
    assert forall|i: int, j: int| 0 <= i < j < all.len() implies !goes_before(
        #[trigger] all[j],
        #[trigger] all[i],
    ) by {
        assert(!candidates::is_better(all[j], all[i]));
    }
}

/// Of candidates that are alike as far as their order goes, the earlier stays first
pub proof fn law_equals_stay_in_order(
    list: Seq<CandidateInfoModel>,
    added: CandidateInfoModel,
)
    requires
        is_worth_showing(added),
        forall|i: int| 0 <= i < list.len() ==> !goes_before(added, #[trigger] list[i]),
    ensures
        candidates::ranked(list.push(added)) == candidates::ranked(list).push(added),
{
    broadcast use vstd::seq_lib::group_to_multiset_ensures;

    assert(list.push(added).drop_last() =~= list);
    let all = candidates::ranked(list);
    candidates::law_candidates_are_ranked(list);
    lemma_kept(list);
    if all.len() > 0 {
        let last = all.last();
        assert(all[all.len() - 1] == last);
        assert(all.contains(last));
        assert(all.to_multiset().count(last) > 0);
        let worth = list.filter(|info: CandidateInfoModel| is_worth_showing(info));
        assert(worth.to_multiset().count(last) > 0);
        assert(worth.contains(last));
        list.lemma_filter_contains_rev(|info: CandidateInfoModel| is_worth_showing(info), last);
    }
}

/// The block closest to some code is the first of those most like it, and like it by
/// three tenths or more
pub proof fn law_first_closest(list: Seq<ClosestModel>)
    ensures
        match candidates::closest_spec(list) {
            Some(closest) => closest.similarity >= 0x3FD3_3333_3333_3333u64 && exists|i: int|
                0 <= i < list.len() && #[trigger] list[i] == closest && is_first_most(list, i),
            None => forall|i: int|
                0 <= i < list.len() ==> (#[trigger] list[i]).similarity < 0x3FD3_3333_3333_3333u64,
        },
    decreases list.len(),
{
    if list.len() > 0 {
        let head = list.drop_last();
        let n = list.len() - 1;
        law_first_closest(head);
        assert(list[n] == list.last());
        assert forall|i: int| 0 <= i < n implies #[trigger] head[i] == list[i] by {}
        if let Some(before) = candidates::closest_spec(head) {
            let i = choose|i: int|
                0 <= i < head.len() && #[trigger] head[i] == before && is_first_most(head, i);
            assert(list[i] == before);
            assert forall|j: int| 0 <= j < n implies (#[trigger] list[j]).similarity
                <= before.similarity by {
                assert(head[j] == list[j]);
            }
            assert forall|j: int| 0 <= j < i implies (#[trigger] list[j]).similarity
                < before.similarity by {
                assert(head[j] == list[j]);
            }
            if candidates::closest_spec(list) == Some(before) {
                assert(is_first_most(list, i));
            } else {
                assert(is_first_most(list, n));
            }
        } else {
            assert forall|j: int| 0 <= j < n implies (#[trigger] list[j]).similarity
                < 0x3FD3_3333_3333_3333u64 by {
                assert(head[j] == list[j]);
            }
            if candidates::closest_spec(list) is Some {
                assert(is_first_most(list, n));
            }
        }
    }
}

/// Whether the `i`th is more alike than those before it, and no less than any
pub open spec fn is_first_most(list: Seq<ClosestModel>, i: int) -> bool {
    &&& forall|j: int| 0 <= j < i ==> (#[trigger] list[j]).similarity < list[i].similarity
    &&& forall|j: int| 0 <= j < list.len() ==> (#[trigger] list[j]).similarity
        <= list[i].similarity
}

/// Whether the `i`th is more alike than those after it, and no less than any
pub open spec fn is_last_most(list: Seq<FormerlyModel>, i: int) -> bool {
    &&& forall|j: int| i < j < list.len() ==> (#[trigger] list[j]).similarity < list[i].similarity
    &&& forall|j: int| 0 <= j < list.len() ==> (#[trigger] list[j]).similarity
        <= list[i].similarity
}

/// What a block formerly was is the last of the ignored contents most like it, and like
/// it by half or more
pub proof fn law_last_former(list: Seq<FormerlyModel>)
    ensures
        match candidates::most_like(list) {
            Some(former) => former.similarity >= 0x3FE0_0000_0000_0000u64 && exists|i: int|
                0 <= i < list.len() && #[trigger] list[i] == former && is_last_most(list, i),
            None => forall|i: int|
                0 <= i < list.len() ==> (#[trigger] list[i]).similarity < 0x3FE0_0000_0000_0000u64,
        },
    decreases list.len(),
{
    if list.len() > 0 {
        let head = list.drop_last();
        let n = list.len() - 1;
        law_last_former(head);
        assert(list[n] == list.last());
        if let Some(before) = candidates::most_like(head) {
            let i = choose|i: int|
                0 <= i < head.len() && #[trigger] head[i] == before && is_last_most(head, i);
            assert(list[i] == before);
            assert forall|j: int| 0 <= j < n implies (#[trigger] list[j]).similarity
                <= before.similarity by {
                assert(head[j] == list[j]);
            }
            assert forall|j: int| i < j < n implies (#[trigger] list[j]).similarity
                < before.similarity by {
                assert(head[j] == list[j]);
            }
            if list[n].similarity >= before.similarity {
                assert(is_last_most(list, n));
            } else {
                assert(is_last_most(list, i));
            }
        } else {
            assert forall|j: int| 0 <= j < n implies (#[trigger] list[j]).similarity
                < 0x3FE0_0000_0000_0000u64 by {
                assert(head[j] == list[j]);
            }
            if candidates::most_like(list) is Some {
                assert(is_last_most(list, n));
            }
        }
    }
}

// ---------------------------------------------------------------------------
// All blocks
// ---------------------------------------------------------------------------

/// A block is compared with all of the code there is, in order
pub proof fn law_all_code_is_compared(
    block: BlockModel,
    pool: Seq<PoolModel>,
    unprompted: Seq<char>,
    tokens: Seq<Seq<char>>,
)
    requires
        candidates::drafts_spec(block, pool, unprompted, tokens) is Ok,
    ensures
        ({
            let drafts = candidates::drafts_spec(block, pool, unprompted, tokens)->Ok_0;
            &&& drafts.len() == pool.len()
            &&& forall|i: int|
                0 <= i < pool.len() ==> candidates::draft_spec(
                    block,
                    #[trigger] pool[i],
                    unprompted,
                    tokens,
                ) == Ok::<_, Seq<char>>(drafts[i])
        }),
    decreases pool.len(),
{
    if pool.len() > 0 {
        let head = pool.drop_last();
        law_all_code_is_compared(block, head, unprompted, tokens);
        let drafts = candidates::drafts_spec(block, pool, unprompted, tokens)->Ok_0;
        assert forall|i: int| 0 <= i < pool.len() implies candidates::draft_spec(
            block,
            #[trigger] pool[i],
            unprompted,
            tokens,
        ) == Ok::<_, Seq<char>>(drafts[i]) by {
            if i < head.len() {
                assert(head[i] == pool[i]);
            }
        }
    }
}

/// A block without shell prompts is compared as it is
pub proof fn law_without_prompts(content: Seq<char>)
    requires
        forall|i: int|
            0 <= i < lines::lines_of(content).len() ==> !"$ "@.is_prefix_of(
                #[trigger] lines::lines_of(content)[i],
            ),
    ensures
        candidates::unprompted_spec(content) == content,
{
}

/// A block with shell prompts is compared without the `$ ` of the lines that have it, as
/// its doc side with the option that strips it is
pub proof fn law_with_prompts(content: Seq<char>, i: int)
    requires
        0 <= i < lines::lines_of(content).len(),
        "$ "@.is_prefix_of(lines::lines_of(content)[i]),
    ensures
        eval::doc_side_spec(
            content,
            seq![apply_laws::with_text("strip-line-prefix"@, "$ "@, OptionSide::Doc)],
        ) matches Some(side) ==> candidates::unprompted_spec(content) == side,
{
    assert(lightbulb::has_prompts(content));
    assert(apply_laws::with_text("strip-line-prefix"@, "$ "@, OptionSide::Doc)
        == lightbulb::strip_prompt_spec());
}

/// Whether what was found for a block is right: nothing for one that is done; otherwise
/// all of the code it is compared with, and all of the stale ignored content
pub open spec fn is_drafted(
    found: BlockEvalModel,
    draft: BlockDraftModel,
    pool: Seq<PoolModel>,
    stale: Seq<(Seq<char>, Seq<char>)>,
) -> bool {
    if summary_laws::is_left(found) {
        &&& draft.candidates.len() == pool.len()
        &&& forall|i: int|
            0 <= i < pool.len() ==> (#[trigger] draft.candidates[i]).info.id == pool[i].id
        &&& draft.formerly.len() == stale.len()
        &&& forall|i: int|
            0 <= i < stale.len() ==> {
                &&& (#[trigger] draft.formerly[i]).former.reason == stale[i].0
                &&& draft.formerly[i].former.content == stale[i].1
                &&& draft.formerly[i].comparison == similarity::similarity_spec(
                    found.block.content,
                    stale[i].1,
                )
            }
    } else {
        draft.candidates.len() == 0 && draft.formerly.len() == 0
    }
}

proof fn lemma_drafted(
    found: BlockEvalModel,
    pool: Seq<PoolModel>,
    stale: Seq<(Seq<char>, Seq<char>)>,
)
    requires
        candidates::draft_block_spec(found, pool, stale) is Ok,
    ensures
        is_drafted(found, candidates::draft_block_spec(found, pool, stale)->Ok_0, pool, stale),
{
    if summary_laws::is_left(found) {
        let unprompted = candidates::unprompted_spec(found.block.content);
        let tokens = similarity::tokens_of(unprompted);
        law_all_code_is_compared(found.block, pool, unprompted, tokens);
        let draft = candidates::draft_block_spec(found, pool, stale)->Ok_0;
        assert forall|i: int| 0 <= i < pool.len() implies (
        #[trigger] draft.candidates[i]).info.id == pool[i].id by {
            assert(candidates::draft_spec(found.block, pool[i], unprompted, tokens) is Ok);
            law_candidate(found.block, pool[i], unprompted, tokens);
        }
    }
}

/// Each block is looked at, in order: one that is left is compared with all of the code
/// and the stale ignored content there is
pub proof fn law_all_blocks_are_drafted(
    blocks: Seq<BlockEvalModel>,
    pool: Seq<PoolModel>,
    stale: Seq<(Seq<char>, Seq<char>)>,
)
    requires
        candidates::draft_blocks_spec(blocks, pool, stale) is Ok,
    ensures
        ({
            let drafts = candidates::draft_blocks_spec(blocks, pool, stale)->Ok_0;
            &&& drafts.len() == blocks.len()
            &&& forall|i: int|
                0 <= i < blocks.len() ==> is_drafted(#[trigger] blocks[i], drafts[i], pool, stale)
        }),
    decreases blocks.len(),
{
    if blocks.len() > 0 {
        let head = blocks.drop_last();
        law_all_blocks_are_drafted(head, pool, stale);
        lemma_drafted(blocks.last(), pool, stale);
        let drafts = candidates::draft_blocks_spec(blocks, pool, stale)->Ok_0;
        assert forall|i: int| 0 <= i < blocks.len() implies is_drafted(
            #[trigger] blocks[i],
            drafts[i],
            pool,
            stale,
        ) by {
            if i < head.len() {
                assert(head[i] == blocks[i]);
            }
        }
    }
}

/// Whether a block has got what was found for it, and is otherwise as it was
pub open spec fn is_completed(
    before: BlockEvalModel,
    after: BlockEvalModel,
    draft: BlockDraftModel,
) -> bool {
    &&& after.block == before.block
    &&& after.matches == before.matches
    &&& after.ignored_as == before.ignored_as
    &&& !summary_laws::is_left(before) ==> after == before
    &&& summary_laws::is_left(before) ==> {
        let infos = Seq::new(draft.candidates.len(), |i: int| draft.candidates[i].info);
        let formers = Seq::new(draft.formerly.len(), |i: int| draft.formerly[i].former);
        &&& after.candidates == candidates::best(infos)
        &&& after.formerly == match candidates::most_like(formers) {
            Some(former) => seq![former],
            None => Seq::empty(),
        }
    }
}

/// All blocks of an assembly get what was found for each of them, after the blocks of
/// the assemblies before it got theirs
pub proof fn law_candidates_are_added(
    before: Seq<AssemblyEvalModel>,
    last: AssemblyEvalModel,
    drafts: Seq<BlockDraftModel>,
)
    requires
        drafts.len() == eval::all_blocks(before.push(last)).len(),
    ensures
        ({
            let after = candidates::add_candidates_spec(before.push(last), drafts);
            let n = before.len() as int;
            let from = eval::all_blocks(before).len() as int;
            &&& after.len() == n + 1
            &&& after.take(n) == candidates::add_candidates_spec(before, drafts)
            &&& after[n].assembly == last.assembly
            &&& after[n].blocks.len() == last.blocks.len()
            &&& forall|i: int|
                0 <= i < last.blocks.len() ==> is_completed(
                    #[trigger] last.blocks[i],
                    after[n].blocks[i],
                    drafts[from + i],
                )
        }),
{
    let all = before.push(last);
    assert(all.drop_last() =~= before);
    lemma_added_count(before, drafts);
    let after = candidates::add_candidates_spec(all, drafts);
    let n = before.len() as int;
    let from = eval::all_blocks(before).len() as int;
    assert(after.take(n) =~= candidates::add_candidates_spec(before, drafts));
    assert(eval::all_blocks(all).len() == from + last.blocks.len());
    assert forall|i: int| 0 <= i < last.blocks.len() implies is_completed(
        #[trigger] last.blocks[i],
        after[n].blocks[i],
        drafts[from + i],
    ) by {
        let draft = drafts[from + i];
        assert(after[n].blocks[i] == candidates::with_draft(last.blocks[i], draft));
        assert(candidates::draft_infos(draft.candidates) =~= Seq::new(
            draft.candidates.len(),
            |i: int| draft.candidates[i].info,
        ));
        assert(candidates::draft_formers(draft.formerly) =~= Seq::new(
            draft.formerly.len(),
            |i: int| draft.formerly[i].former,
        ));
    }
}

proof fn lemma_added_count(assemblies: Seq<AssemblyEvalModel>, drafts: Seq<BlockDraftModel>)
    ensures
        candidates::add_candidates_spec(assemblies, drafts).len() == assemblies.len(),
    decreases assemblies.len(),
{
    if assemblies.len() > 0 {
        lemma_added_count(assemblies.drop_last(), drafts);
    }
}

} // verus!
