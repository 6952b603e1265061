//! Evaluation: every doc block against all marked code and the ignore directory.
//!
//! A block is resolved when some marked code (its options applied, its doc
//! options applied to the block, its placeholders free) matches it; ignored
//! when its content is in the ignore directory; and otherwise still to resolve,
//! with the repo code most like it as candidates.

use crate::apply;
use crate::candidates;
use crate::candidates::{CandidateInfo, CandidateInfoModel, Formerly, FormerlyModel};
use crate::docs;
use crate::docs::{Assembly, AssemblyModel, Block, BlockModel};
use crate::ignored;
use crate::ignored::{EntryModel, IgnoredBlocks};
use crate::lightbulb;
use crate::matching;
use crate::matching::Values;
use crate::numbers;
use crate::options;
use crate::options::{MarkerOption, OptionModel};
use crate::repo;
use crate::repo::{CodeModel, MarkedCode, RepoModel, Scan};
use crate::text;
use vstd::prelude::*;

verus! {

/// A piece of marked code that matches a block
#[derive(Debug)]
pub struct CodeMatch {
    /// Index into the scan's marked code
    pub code: usize,
    pub values: Values,
}

#[verifier::ext_equal]
pub struct MatchModel {
    pub code: nat,
    pub values: Seq<(Seq<char>, Seq<char>)>,
}

impl View for CodeMatch {
    type V = MatchModel;

    open spec fn view(&self) -> MatchModel {
        MatchModel { code: self.code as nat, values: self.values@ }
    }
}

pub open spec fn match_models(list: Seq<CodeMatch>) -> Seq<MatchModel> {
    Seq::new(list.len(), |i: int| list[i]@)
}

/// A doc block and what was found for it
#[derive(Debug)]
pub struct BlockEval {
    pub block: Block,
    pub matches: Vec<CodeMatch>,
    pub ignored_as: Option<String>,
    pub candidates: Vec<CandidateInfo>,
    /// For an unresolved block: a stale ignored entry it probably used to be
    pub formerly: Vec<Formerly>,
}

#[verifier::ext_equal]
pub struct BlockEvalModel {
    pub block: BlockModel,
    pub matches: Seq<MatchModel>,
    pub ignored_as: Option<Seq<char>>,
    pub candidates: Seq<CandidateInfoModel>,
    pub formerly: Seq<FormerlyModel>,
}

impl View for BlockEval {
    type V = BlockEvalModel;

    open spec fn view(&self) -> BlockEvalModel {
        BlockEvalModel {
            block: self.block@,
            matches: match_models(self.matches@),
            ignored_as: text::option_view(self.ignored_as),
            candidates: candidates::info_models(self.candidates@),
            formerly: candidates::formerly_models(self.formerly@),
        }
    }
}

impl BlockEvalModel {
    /// Whether some marked code matches the block
    pub open spec fn is_resolved(self) -> bool {
        self.matches.len() > 0
    }

    /// Whether nothing is left to do for the block
    pub open spec fn is_done(self) -> bool {
        self.is_resolved() || self.ignored_as is Some
    }
}

impl BlockEval {
    /// Whether some marked code matches the block
    pub fn resolved(&self) -> (resolved: bool)
        ensures
            resolved == self@.is_resolved(),
    {
        self.matches.len() > 0
    }

    /// Whether the block is resolved or ignored
    pub fn done(&self) -> (done: bool)
        ensures
            done == self@.is_done(),
    {
        self.resolved() || self.ignored_as.is_some()
    }
}

pub open spec fn block_eval_models(list: Seq<BlockEval>) -> Seq<BlockEvalModel> {
    Seq::new(list.len(), |i: int| list[i]@)
}

/// An assembly and what was found for its blocks
#[derive(Debug)]
pub struct AssemblyEval {
    pub assembly: Assembly,
    pub blocks: Vec<BlockEval>,
}

#[verifier::ext_equal]
pub struct AssemblyEvalModel {
    pub assembly: AssemblyModel,
    pub blocks: Seq<BlockEvalModel>,
}

impl View for AssemblyEval {
    type V = AssemblyEvalModel;

    open spec fn view(&self) -> AssemblyEvalModel {
        AssemblyEvalModel { assembly: self.assembly@, blocks: block_eval_models(self.blocks@) }
    }
}

pub open spec fn assembly_eval_models(list: Seq<AssemblyEval>) -> Seq<AssemblyEvalModel> {
    Seq::new(list.len(), |i: int| list[i]@)
}

/// Everything found
pub struct Evaluation {
    pub assemblies: Vec<AssemblyEval>,
    pub scan: Scan,
    /// Ignored entries no doc block has anymore: (reason, content)
    pub stale_ignored: Vec<(String, String)>,
    /// Marked code no doc block matches (indexes into the scan's marked code)
    pub unused: Vec<usize>,
}

#[verifier::ext_equal]
pub struct EvaluationModel {
    pub assemblies: Seq<AssemblyEvalModel>,
    pub scan: RepoModel,
    pub stale_ignored: Seq<(Seq<char>, Seq<char>)>,
    pub unused: Seq<usize>,
}

impl View for Evaluation {
    type V = EvaluationModel;

    open spec fn view(&self) -> EvaluationModel {
        EvaluationModel {
            assemblies: assembly_eval_models(self.assemblies@),
            scan: self.scan@,
            stale_ignored: repo::pair_views(self.stale_ignored@),
            unused: self.unused@,
        }
    }
}

/// All the blocks of some assemblies, in order
pub open spec fn all_blocks(assemblies: Seq<AssemblyEvalModel>) -> Seq<BlockEvalModel>
    decreases assemblies.len(),
{
    if assemblies.len() == 0 {
        Seq::empty()
    } else {
        all_blocks(assemblies.drop_last()) + assemblies.last().blocks
    }
}

pub open spec fn ref_models(list: Seq<&BlockEval>) -> Seq<BlockEvalModel> {
    Seq::new(list.len(), |i: int| list[i]@)
}

/// All the blocks of some assemblies, in order
pub fn blocks_of<'a>(assemblies: &'a Vec<AssemblyEval>) -> (list: Vec<&'a BlockEval>)
    ensures
        ref_models(list@) == all_blocks(assembly_eval_models(assemblies@)),
{
    let ghost models = assembly_eval_models(assemblies@);
    let mut list: Vec<&'a BlockEval> = Vec::new();
    let mut i: usize = 0;
    assert(ref_models(list@) =~= all_blocks(models.take(0)));
    while i < assemblies.len()
        invariant
            i <= assemblies@.len(),
            models == assembly_eval_models(assemblies@),
            ref_models(list@) == all_blocks(models.take(i as int)),
        decreases assemblies@.len() - i,
    {
        let blocks = &assemblies[i].blocks;
        let ghost before = ref_models(list@);
        let ghost views = block_eval_models(blocks@);
        proof {
            assert(models.take(i + 1).drop_last() =~= models.take(i as int));
            assert(models.take(i + 1).last().blocks == views);
        }
        let mut k: usize = 0;
        assert(ref_models(list@) =~= before + views.take(0));
        while k < blocks.len()
            invariant
                k <= blocks@.len(),
                views == block_eval_models(blocks@),
                ref_models(list@) == before + views.take(k as int),
            decreases blocks@.len() - k,
        {
            let ghost done = ref_models(list@);
            list.push(&blocks[k]);
            proof {
                assert(ref_models(list@) =~= done.push(blocks@[k as int]@));
                assert(before + views.take(k + 1) =~= (before + views.take(k as int)).push(
                    views[k as int],
                ));
            }
            k = k + 1;
        }
        assert(views.take(k as int) =~= views);
        i = i + 1;
    }
    assert(models.take(i as int) =~= models);
    list
}

/// The first block with a reference, from the `i`th on
pub open spec fn with_reference(
    blocks: Seq<BlockEvalModel>,
    reference: Seq<char>,
    i: int,
) -> Option<BlockEvalModel>
    decreases blocks.len() - i,
{
    if !(0 <= i < blocks.len()) {
        None
    } else if blocks[i].block.reference == reference {
        Some(blocks[i])
    } else {
        with_reference(blocks, reference, i + 1)
    }
}

/// The first block with a reference in the assemblies with an id, from the `i`th on
pub open spec fn find_spec(
    assemblies: Seq<AssemblyEvalModel>,
    assembly_id: Seq<char>,
    reference: Seq<char>,
    i: int,
) -> Option<BlockEvalModel>
    decreases assemblies.len() - i,
{
    if !(0 <= i < assemblies.len()) {
        None
    } else {
        let here = if assemblies[i].assembly.id == assembly_id {
            with_reference(assemblies[i].blocks, reference, 0)
        } else {
            None
        };
        match here {
            Some(block) => Some(block),
            None => find_spec(assemblies, assembly_id, reference, i + 1),
        }
    }
}

/// A block, if there is one
pub open spec fn block_eval_view(block: Option<&BlockEval>) -> Option<BlockEvalModel> {
    match block {
        Some(block) => Some(block@),
        None => None,
    }
}

/// The first of some blocks with a reference
pub fn find_block<'a>(blocks: &'a Vec<BlockEval>, reference: &str) -> (found: Option<&'a BlockEval>)
    ensures
        block_eval_view(found) == with_reference(block_eval_models(blocks@), reference@, 0),
{
    let ghost views = block_eval_models(blocks@);
    let mut i: usize = 0;
    while i < blocks.len()
        invariant
            i <= blocks@.len(),
            views == block_eval_models(blocks@),
            with_reference(views, reference@, 0) == with_reference(views, reference@, i as int),
        decreases blocks@.len() - i,
    {
        assert(views[i as int] == blocks@[i as int]@);
        if text::same(blocks[i].block.reference.as_str(), reference) {
            return Some(&blocks[i]);
        }
        i = i + 1;
    }
    None
}

/// That there's no marked code at an index
pub open spec fn no_code_message(index: nat) -> Seq<char> {
    "no marked code at index "@ + numbers::decimal_spec(index)
}

impl Evaluation {
    pub open spec fn wf(self) -> bool {
        self.scan.wf()
    }

    /// The block with a reference in the assembly with an id
    pub fn find(&self, assembly_id: &str, reference: &str) -> (found: Option<&BlockEval>)
        ensures
            block_eval_view(found) == find_spec(self@.assemblies, assembly_id@, reference@, 0),
    {
        let ghost views = self@.assemblies;
        let mut i: usize = 0;
        while i < self.assemblies.len()
            invariant
                i <= self.assemblies@.len(),
                views == self@.assemblies,
                find_spec(views, assembly_id@, reference@, 0) == find_spec(
                    views,
                    assembly_id@,
                    reference@,
                    i as int,
                ),
            decreases self.assemblies@.len() - i,
        {
            assert(views[i as int] == self.assemblies@[i as int]@);
            if text::same(self.assemblies[i].assembly.id.as_str(), assembly_id) {
                let found = find_block(&self.assemblies[i].blocks, reference);
                if found.is_some() {
                    return found;
                }
            }
            i = i + 1;
        }
        None
    }

    /// The first block with a reference, in any assembly
    pub fn find_any(&self, reference: &str) -> (found: Option<&BlockEval>)
        ensures
            block_eval_view(found) == with_reference(all_blocks(self@.assemblies), reference@, 0),
    {
        let blocks = blocks_of(&self.assemblies);
        let ghost views = ref_models(blocks@);
        let mut i: usize = 0;
        while i < blocks.len()
            invariant
                i <= blocks@.len(),
                views == ref_models(blocks@),
                views == all_blocks(self@.assemblies),
                with_reference(views, reference@, 0) == with_reference(
                    views,
                    reference@,
                    i as int,
                ),
            decreases blocks@.len() - i,
        {
            assert(views[i as int] == blocks@[i as int]@);
            if text::same(blocks[i].block.reference.as_str(), reference) {
                return Some(blocks[i]);
            }
            i = i + 1;
        }
        None
    }

    /// Marked code, by its index in the scan
    pub fn marked(&self, marked_index: usize) -> (code: Result<&MarkedCode, String>)
        requires
            self.wf(),
        ensures
            match code {
                Ok(code) => marked_index < self@.scan.marked.len() && code@
                    == self@.scan.marked[marked_index as int] && code.matcher.wf(),
                Err(error) => marked_index >= self@.scan.marked.len() && error@ == no_code_message(
                    marked_index as nat,
                ),
            },
    {
        if marked_index < self.scan.marked.len() {
            assert(self@.scan.marked[marked_index as int]
                == self.scan.marked@[marked_index as int]@);
            Ok(&self.scan.marked[marked_index])
        } else {
            let number = numbers::decimal(marked_index);
            let mut message = "no marked code at index ".to_owned();
            message.append(number.as_str());
            Err(message)
        }
    }
}

// ---------------------------------------------------------------------------
// Comparing code with a block
// ---------------------------------------------------------------------------

/// A block's content with doc options applied; none when they don't fit it
pub open spec fn doc_side_spec(content: Seq<char>, doc_options: Seq<OptionModel>) -> Option<
    Seq<char>,
> {
    match apply::apply_options_spec(content, doc_options) {
        Ok(side) => Some(side),
        Err(_) => None,
    }
}

/// The block with doc options applied; None when they don't fit it (so no code with
/// them can match)
pub fn doc_side(block: &Block, doc_options: &Vec<MarkerOption>) -> (side: Option<String>)
    ensures
        text::option_view(side) == doc_side_spec(block.content@, options::models(doc_options@)),
{
    match apply::apply_options(block.content.as_str(), doc_options) {
        Ok(side) => Some(side),
        Err(_) => None,
    }
}

/// What went wrong while filling in the placeholders of some code
pub open spec fn filling(id: Seq<char>) -> Seq<char> {
    "filling in the placeholders of "@ + id
}

/// Some marked code next to a block: the block with the code's doc options, and the
/// code with its placeholders filled in
pub open spec fn compare_spec(code: CodeModel, block: BlockModel) -> Result<
    Option<(Seq<char>, Seq<char>)>,
    Seq<char>,
> {
    match doc_side_spec(block.content, code.doc_options) {
        None => Ok(None),
        Some(side) => match lightbulb::in_context(
            matching::fill_spec(code.matcher, side),
            filling(code.id),
        ) {
            Err(error) => Err(error),
            Ok(filled) => Ok(Some((side, filled))),
        },
    }
}

/// The code of a block side, with its placeholders filled in
pub fn fill_code(code: &MarkedCode, side: &str) -> (filled: Result<String, String>)
    requires
        code.matcher.wf(),
    ensures
        match filled {
            Ok(filled) => lightbulb::in_context(
                matching::fill_spec(code@.matcher, side@),
                filling(code@.id),
            ) == Ok::<_, Seq<char>>(filled@),
            Err(error) => lightbulb::in_context(
                matching::fill_spec(code@.matcher, side@),
                filling(code@.id),
            ) == Err::<Seq<char>, _>(error@),
        },
{
    match code.matcher.fill(side) {
        Ok(filled) => Ok(filled),
        Err(error) => {
            let mut context = "filling in the placeholders of ".to_owned();
            context.append(code.id.as_str());
            Err(lightbulb::error_in(context.as_str(), error))
        },
    }
}

/// Some marked code next to a doc block, for a diff: the block with the code's
/// doc options applied, and the code with its placeholders filled in from it.
/// None when the doc options don't fit the block.
pub fn compare(code: &MarkedCode, block: &Block) -> (sides: Result<
    Option<(String, String)>,
    String,
>)
    requires
        code.matcher.wf(),
    ensures
        match sides {
            Ok(Some(sides)) => compare_spec(code@, block@) == Ok::<_, Seq<char>>(
                Some((sides.0@, sides.1@)),
            ),
            Ok(None) => compare_spec(code@, block@) == Ok::<_, Seq<char>>(
                None::<(Seq<char>, Seq<char>)>,
            ),
            Err(error) => compare_spec(code@, block@) == Err::<
                Option<(Seq<char>, Seq<char>)>,
                _,
            >(error@),
        },
{
    match doc_side(block, &code.doc_options) {
        None => Ok(None),
        Some(side) => match fill_code(code, side.as_str()) {
            Err(error) => Err(error),
            Ok(filled) => Ok(Some((side, filled))),
        },
    }
}

// ---------------------------------------------------------------------------
// Evaluating blocks
// ---------------------------------------------------------------------------

/// Whether some code matches a block: the block with the code's doc options is the
/// code, its placeholders free
pub open spec fn shows(block: BlockModel, code: CodeModel) -> bool {
    doc_side_spec(block.content, code.doc_options) matches Some(side) && matching::is_instance(
        code.matcher,
        side,
    )
}

/// What is being matched
pub open spec fn matching_context(id: Seq<char>, reference: Seq<char>) -> Seq<char> {
    "matching "@ + id + " against "@ + reference
}

/// The placeholders' values when some code matches a block
pub open spec fn match_code_spec(block: BlockModel, code: CodeModel) -> Result<
    Option<Seq<(Seq<char>, Seq<char>)>>,
    Seq<char>,
> {
    match doc_side_spec(block.content, code.doc_options) {
        None => Ok(None),
        Some(side) => lightbulb::in_context(
            matching::matches_spec(code.matcher, side),
            matching_context(code.id, block.reference),
        ),
    }
}

/// All the marked code that matches a block
pub open spec fn match_block_spec(block: BlockModel, marked: Seq<CodeModel>) -> Result<
    Seq<MatchModel>,
    Seq<char>,
>
    decreases marked.len(),
{
    if marked.len() == 0 {
        Ok(Seq::empty())
    } else {
        match match_block_spec(block, marked.drop_last()) {
            Err(error) => Err(error),
            Ok(found) => match match_code_spec(block, marked.last()) {
                Err(error) => Err(error),
                Ok(None) => Ok(found),
                Ok(Some(values)) => Ok(
                    found.push(MatchModel { code: (marked.len() - 1) as nat, values }),
                ),
            },
        }
    }
}

proof fn lemma_match_block_error(block: BlockModel, marked: Seq<CodeModel>, i: int)
    requires
        0 <= i <= marked.len(),
        match_block_spec(block, marked.take(i)) is Err,
    ensures
        match_block_spec(block, marked) == match_block_spec(block, marked.take(i)),
    decreases marked.len(),
{
    if i < marked.len() {
        assert(marked.drop_last().take(i) =~= marked.take(i));
        lemma_match_block_error(block, marked.drop_last(), i);
    } else {
        assert(marked.take(i) =~= marked);
    }
}

/// Whether the code with an index is among the matches
pub open spec fn is_matched(list: Seq<MatchModel>, code: int) -> bool {
    exists|k: int| 0 <= k < list.len() && (#[trigger] list[k]).code == code
}

/// Whether the matches are exactly the code that matches a block, in order
pub open spec fn are_matches(
    list: Seq<MatchModel>,
    block: BlockModel,
    marked: Seq<CodeModel>,
) -> bool {
    &&& forall|i: int|
        0 <= i < marked.len() ==> is_matched(list, i) == shows(block, #[trigger] marked[i])
    &&& forall|k: int| 0 <= k < list.len() ==> (#[trigger] list[k]).code < marked.len()
    &&& forall|j: int, k: int|
        0 <= j < k < list.len() ==> (#[trigger] list[j]).code < (#[trigger] list[k]).code
}

fn match_code(block: &Block, code: &MarkedCode) -> (values: Result<Option<Values>, String>)
    requires
        code.matcher.wf(),
    ensures
        match values {
            Ok(Some(values)) => match_code_spec(block@, code@) == Ok::<_, Seq<char>>(
                Some(values@),
            ),
            Ok(None) => match_code_spec(block@, code@) == Ok::<_, Seq<char>>(
                None::<Seq<(Seq<char>, Seq<char>)>>,
            ),
            Err(error) => match_code_spec(block@, code@) == Err::<
                Option<Seq<(Seq<char>, Seq<char>)>>,
                _,
            >(error@),
        },
        values matches Ok(values) ==> values is Some == shows(block@, code@),
{
    match doc_side(block, &code.doc_options) {
        None => Ok(None),
        Some(side) => match code.matcher.matches(side.as_str()) {
            Ok(values) => Ok(values),
            Err(error) => {
                let mut context = text::surround("matching ", code.id.as_str(), " against ");
                context.append(block.reference.as_str());
                Err(lightbulb::error_in(context.as_str(), error))
            },
        },
    }
}

/// All the marked code that matches the block
pub fn match_block(block: &Block, marked: &Vec<MarkedCode>) -> (found: Result<
    Vec<CodeMatch>,
    String,
>)
    requires
        forall|i: int| 0 <= i < marked@.len() ==> (#[trigger] marked@[i]).matcher.wf(),
    ensures
        match found {
            Ok(list) => match_block_spec(block@, repo::code_models(marked@)) == Ok::<
                _,
                Seq<char>,
            >(match_models(list@)) && are_matches(
                match_models(list@),
                block@,
                repo::code_models(marked@),
            ),
            Err(error) => match_block_spec(block@, repo::code_models(marked@)) == Err::<
                Seq<MatchModel>,
                _,
            >(error@),
        },
{
    let ghost codes = repo::code_models(marked@);
    let mut list: Vec<CodeMatch> = Vec::new();
    let mut i: usize = 0;
    assert(match_models(list@) =~= Seq::<MatchModel>::empty());
    while i < marked.len()
        invariant
            i <= marked@.len(),
            codes == repo::code_models(marked@),
            forall|k: int| 0 <= k < marked@.len() ==> (#[trigger] marked@[k]).matcher.wf(),
            match_block_spec(block@, codes.take(i as int)) == Ok::<_, Seq<char>>(
                match_models(list@),
            ),
            are_matches(match_models(list@), block@, codes.take(i as int)),
        decreases marked@.len() - i,
    {
        let ghost next = codes.take(i + 1);
        let ghost before = match_models(list@);
        proof {
            assert(next.drop_last() =~= codes.take(i as int));
            assert(next.last() == marked@[i as int]@);
        }
        match match_code(block, &marked[i]) {
            Err(error) => {
                proof {
                    lemma_match_block_error(block@, codes, i + 1);
                }
                return Err(error);
            },
            Ok(None) => {
                assert(!is_matched(before, i as int));
                assert(are_matches(before, block@, next)) by {
                    assert forall|k: int| 0 <= k < next.len() implies is_matched(before, k)
                        == shows(block@, #[trigger] next[k]) by {
                        if k < i {
                            assert(codes.take(i as int)[k] == next[k]);
                        }
                    }
                }
            },
            Ok(Some(values)) => {
                let added = CodeMatch { code: i, values };
                list.push(added);
                let ghost after = match_models(list@);
                proof {
                    assert(after =~= before.push(added@));
                    assert forall|k: int| 0 <= k < next.len() implies is_matched(after, k)
                        == shows(block@, #[trigger] next[k]) by {
                        if k < i {
                            assert(codes.take(i as int)[k] == next[k]);
                            if is_matched(before, k) {
                                let m = choose|m: int|
                                    0 <= m < before.len() && (#[trigger] before[m]).code == k;
                                assert(after[m].code == k);
                            }
                            if is_matched(after, k) {
                                let m = choose|m: int|
                                    0 <= m < after.len() && (#[trigger] after[m]).code == k;
                                assert(before[m].code == k);
                            }
                        } else {
                            assert(after[before.len() as int].code == k);
                        }
                    }
                    assert forall|k: int| 0 <= k < after.len() implies (
                    #[trigger] after[k]).code < next.len() by {
                        if k < before.len() {
                            assert(after[k] == before[k]);
                        }
                    }
                    assert forall|j: int, k: int| 0 <= j < k < after.len() implies (
                    #[trigger] after[j]).code < (#[trigger] after[k]).code by {
                        assert(after[j] == before[j]);
                        if k < before.len() {
                            assert(after[k] == before[k]);
                        }
                    }
                }
            },
        }
        i = i + 1;
    }
    assert(codes.take(i as int) =~= codes);
    Ok(list)
}

/// What is found for a block, before any candidates
pub open spec fn evaluate_block_spec(
    block: BlockModel,
    marked: Seq<CodeModel>,
    entries: Seq<EntryModel>,
) -> Result<BlockEvalModel, Seq<char>> {
    match match_block_spec(block, marked) {
        Err(error) => Err(error),
        Ok(list) => Ok(
            BlockEvalModel {
                block,
                matches: list,
                ignored_as: if list.len() == 0 {
                    ignored::reason_spec(entries, block.content)
                } else {
                    None
                },
                candidates: Seq::empty(),
                formerly: Seq::empty(),
            },
        ),
    }
}

/// Whether what was found for a block is right: it's resolved by the code that
/// matches it, or else ignored for the reason its content is ignored for
pub open spec fn is_judged(
    found: BlockEvalModel,
    marked: Seq<CodeModel>,
    entries: Seq<EntryModel>,
) -> bool {
    &&& are_matches(found.matches, found.block, marked)
    &&& found.ignored_as == if found.is_resolved() {
        None
    } else {
        ignored::reason_spec(entries, found.block.content)
    }
}

/// Finds the code that matches a block, or else why it's ignored
pub fn evaluate_block(block: Block, scan: &Scan, ignored_blocks: &IgnoredBlocks) -> (found: Result<
    BlockEval,
    String,
>)
    requires
        scan.wf(),
    ensures
        match found {
            Ok(found) => evaluate_block_spec(block@, scan@.marked, ignored_blocks@) == Ok::<
                _,
                Seq<char>,
            >(found@) && is_judged(found@, scan@.marked, ignored_blocks@),
            Err(error) => evaluate_block_spec(block@, scan@.marked, ignored_blocks@) == Err::<
                BlockEvalModel,
                _,
            >(error@),
        },
{
    match match_block(&block, &scan.marked) {
        Err(error) => Err(error),
        Ok(list) => {
            let ignored_as = if list.len() == 0 {
                match ignored_blocks.reason_of(block.content.as_str()) {
                    Some(reason) => Some(reason.to_owned()),
                    None => None,
                }
            } else {
                None
            };
            let found = BlockEval {
                block,
                matches: list,
                ignored_as,
                candidates: Vec::new(),
                formerly: Vec::new(),
            };
            assert(found@.candidates =~= Seq::empty());
            assert(found@.formerly =~= Seq::empty());
            Ok(found)
        },
    }
}

/// What is found for each of some blocks
pub open spec fn evaluate_blocks_spec(
    blocks: Seq<BlockModel>,
    marked: Seq<CodeModel>,
    entries: Seq<EntryModel>,
) -> Result<Seq<BlockEvalModel>, Seq<char>>
    decreases blocks.len(),
{
    if blocks.len() == 0 {
        Ok(Seq::empty())
    } else {
        match evaluate_blocks_spec(blocks.drop_last(), marked, entries) {
            Err(error) => Err(error),
            Ok(found) => match evaluate_block_spec(blocks.last(), marked, entries) {
                Err(error) => Err(error),
                Ok(next) => Ok(found.push(next)),
            },
        }
    }
}

proof fn lemma_evaluate_blocks_error(
    blocks: Seq<BlockModel>,
    marked: Seq<CodeModel>,
    entries: Seq<EntryModel>,
    i: int,
)
    requires
        0 <= i <= blocks.len(),
        evaluate_blocks_spec(blocks.take(i), marked, entries) is Err,
    ensures
        evaluate_blocks_spec(blocks, marked, entries) == evaluate_blocks_spec(
            blocks.take(i),
            marked,
            entries,
        ),
    decreases blocks.len(),
{
    if i < blocks.len() {
        assert(blocks.drop_last().take(i) =~= blocks.take(i));
        lemma_evaluate_blocks_error(blocks.drop_last(), marked, entries, i);
    } else {
        assert(blocks.take(i) =~= blocks);
    }
}

/// Whether what was found for each of some blocks is right
pub open spec fn all_judged(
    found: Seq<BlockEvalModel>,
    marked: Seq<CodeModel>,
    entries: Seq<EntryModel>,
) -> bool {
    forall|i: int| 0 <= i < found.len() ==> is_judged(#[trigger] found[i], marked, entries)
}

fn evaluate_blocks(blocks: &Vec<Block>, scan: &Scan, ignored_blocks: &IgnoredBlocks) -> (found:
    Result<Vec<BlockEval>, String>)
    requires
        scan.wf(),
    ensures
        match found {
            Ok(found) => evaluate_blocks_spec(
                docs::block_models(blocks@),
                scan@.marked,
                ignored_blocks@,
            ) == Ok::<_, Seq<char>>(block_eval_models(found@)) && all_judged(
                block_eval_models(found@),
                scan@.marked,
                ignored_blocks@,
            ),
            Err(error) => evaluate_blocks_spec(
                docs::block_models(blocks@),
                scan@.marked,
                ignored_blocks@,
            ) == Err::<Seq<BlockEvalModel>, _>(error@),
        },
{
    let ghost models = docs::block_models(blocks@);
    let mut found: Vec<BlockEval> = Vec::new();
    let mut i: usize = 0;
    assert(block_eval_models(found@) =~= Seq::<BlockEvalModel>::empty());
    while i < blocks.len()
        invariant
            i <= blocks@.len(),
            scan.wf(),
            models == docs::block_models(blocks@),
            evaluate_blocks_spec(models.take(i as int), scan@.marked, ignored_blocks@) == Ok::<
                _,
                Seq<char>,
            >(block_eval_models(found@)),
            all_judged(block_eval_models(found@), scan@.marked, ignored_blocks@),
        decreases blocks@.len() - i,
    {
        let ghost before = block_eval_models(found@);
        proof {
            assert(models.take(i + 1).drop_last() =~= models.take(i as int));
            assert(models.take(i + 1).last() == blocks@[i as int]@);
        }
        match evaluate_block(blocks[i].clone(), scan, ignored_blocks) {
            Err(error) => {
                proof {
                    lemma_evaluate_blocks_error(models, scan@.marked, ignored_blocks@, i + 1);
                }
                return Err(error);
            },
            Ok(next) => {
                found.push(next);
                assert(block_eval_models(found@) =~= before.push(next@));
            },
        }
        i = i + 1;
    }
    assert(models.take(i as int) =~= models);
    Ok(found)
}

/// What is found for the blocks of a module
pub open spec fn evaluate_module_spec(
    module: Seq<char>,
    module_text: Seq<char>,
    marked: Seq<CodeModel>,
    entries: Seq<EntryModel>,
) -> Result<Seq<BlockEvalModel>, Seq<char>> {
    match lightbulb::in_context(
        docs::extract_spec(module, module_text),
        "reading the module "@ + module,
    ) {
        Err(error) => Err(error),
        Ok(blocks) => evaluate_blocks_spec(blocks, marked, entries),
    }
}

/// Evaluates the blocks of a module, given its text
pub fn evaluate_module(
    module: &str,
    module_text: &str,
    scan: &Scan,
    ignored_blocks: &IgnoredBlocks,
) -> (found: Result<Vec<BlockEval>, String>)
    requires
        scan.wf(),
    ensures
        match found {
            Ok(found) => evaluate_module_spec(
                module@,
                module_text@,
                scan@.marked,
                ignored_blocks@,
            ) == Ok::<_, Seq<char>>(block_eval_models(found@)) && all_judged(
                block_eval_models(found@),
                scan@.marked,
                ignored_blocks@,
            ),
            Err(error) => evaluate_module_spec(
                module@,
                module_text@,
                scan@.marked,
                ignored_blocks@,
            ) == Err::<Seq<BlockEvalModel>, _>(error@),
        },
{
    match docs::extract_blocks(module, module_text) {
        Err(error) => {
            let mut context = "reading the module ".to_owned();
            context.append(module);
            Err(lightbulb::error_in(context.as_str(), error))
        },
        Ok(blocks) => evaluate_blocks(&blocks, scan, ignored_blocks),
    }
}

/// What is found for the blocks of some modules, one after the other
pub open spec fn evaluate_modules_spec(
    modules: Seq<Seq<char>>,
    texts: Seq<Seq<char>>,
    marked: Seq<CodeModel>,
    entries: Seq<EntryModel>,
    count: int,
) -> Result<Seq<BlockEvalModel>, Seq<char>>
    decreases count,
{
    if count <= 0 {
        Ok(Seq::empty())
    } else {
        match evaluate_modules_spec(modules, texts, marked, entries, count - 1) {
            Err(error) => Err(error),
            Ok(found) => match evaluate_module_spec(
                modules[count - 1],
                texts[count - 1],
                marked,
                entries,
            ) {
                Err(error) => Err(error),
                Ok(next) => Ok(found + next),
            },
        }
    }
}

proof fn lemma_evaluate_modules_error(
    modules: Seq<Seq<char>>,
    texts: Seq<Seq<char>>,
    marked: Seq<CodeModel>,
    entries: Seq<EntryModel>,
    i: int,
    count: int,
)
    requires
        0 <= i <= count,
        evaluate_modules_spec(modules, texts, marked, entries, i) is Err,
    ensures
        evaluate_modules_spec(modules, texts, marked, entries, count) == evaluate_modules_spec(
            modules,
            texts,
            marked,
            entries,
            i,
        ),
    decreases count,
{
    if i < count {
        lemma_evaluate_modules_error(modules, texts, marked, entries, i, count - 1);
    }
}

/// An assembly, with the texts of its modules
pub struct AssemblySource {
    pub assembly: Assembly,
    /// The text of each of the assembly's modules
    pub module_texts: Vec<String>,
}

pub struct SourceModel {
    pub assembly: AssemblyModel,
    pub module_texts: Seq<Seq<char>>,
}

impl View for AssemblySource {
    type V = SourceModel;

    open spec fn view(&self) -> SourceModel {
        SourceModel { assembly: self.assembly@, module_texts: text::views(self.module_texts@) }
    }
}

pub open spec fn source_models(list: Seq<AssemblySource>) -> Seq<SourceModel> {
    Seq::new(list.len(), |i: int| list[i]@)
}

impl AssemblySource {
    /// There is a text for each module
    pub open spec fn wf(self) -> bool {
        self.module_texts@.len() == self.assembly.modules@.len()
    }
}

/// What is found for an assembly
pub open spec fn evaluate_assembly_spec(
    source: SourceModel,
    marked: Seq<CodeModel>,
    entries: Seq<EntryModel>,
) -> Result<AssemblyEvalModel, Seq<char>> {
    match evaluate_modules_spec(
        source.assembly.modules,
        source.module_texts,
        marked,
        entries,
        source.assembly.modules.len() as int,
    ) {
        Err(error) => Err(error),
        Ok(blocks) => Ok(AssemblyEvalModel { assembly: source.assembly, blocks }),
    }
}

/// Evaluates the blocks of all the modules of an assembly
pub fn evaluate_assembly(source: AssemblySource, scan: &Scan, ignored_blocks: &IgnoredBlocks) -> (
    found: Result<AssemblyEval, String>)
    requires
        scan.wf(),
        source.wf(),
    ensures
        match found {
            Ok(found) => evaluate_assembly_spec(source@, scan@.marked, ignored_blocks@) == Ok::<
                _,
                Seq<char>,
            >(found@) && all_judged(found@.blocks, scan@.marked, ignored_blocks@),
            Err(error) => evaluate_assembly_spec(source@, scan@.marked, ignored_blocks@) == Err::<
                AssemblyEvalModel,
                _,
            >(error@),
        },
{
    let ghost modules = source@.assembly.modules;
    let ghost texts = source@.module_texts;
    let mut blocks: Vec<BlockEval> = Vec::new();
    let mut i: usize = 0;
    assert(block_eval_models(blocks@) =~= Seq::<BlockEvalModel>::empty());
    while i < source.assembly.modules.len()
        invariant
            i <= source.assembly.modules@.len(),
            scan.wf(),
            source.wf(),
            modules == source@.assembly.modules,
            texts == source@.module_texts,
            evaluate_modules_spec(modules, texts, scan@.marked, ignored_blocks@, i as int) == Ok::<
                _,
                Seq<char>,
            >(block_eval_models(blocks@)),
            all_judged(block_eval_models(blocks@), scan@.marked, ignored_blocks@),
        decreases source.assembly.modules@.len() - i,
    {
        proof {
            assert(modules[i as int] == source.assembly.modules@[i as int]@);
            assert(texts[i as int] == source.module_texts@[i as int]@);
        }
        match evaluate_module(
            source.assembly.modules[i].as_str(),
            source.module_texts[i].as_str(),
            scan,
            ignored_blocks,
        ) {
            Err(error) => {
                proof {
                    lemma_evaluate_modules_error(
                        modules,
                        texts,
                        scan@.marked,
                        ignored_blocks@,
                        i + 1,
                        modules.len() as int,
                    );
                }
                return Err(error);
            },
            Ok(found) => {
                let mut found = found;
                let ghost before = block_eval_models(blocks@);
                let ghost added = block_eval_models(found@);
                blocks.append(&mut found);
                proof {
                    assert(block_eval_models(blocks@) =~= before + added);
                }
            },
        }
        i = i + 1;
    }
    assert(modules.len() == source.assembly.modules@.len());
    Ok(AssemblyEval { assembly: source.assembly, blocks })
}

// ---------------------------------------------------------------------------
// What is left over
// ---------------------------------------------------------------------------

/// Whether some content is the content of an ignored block
pub open spec fn content_in_use(blocks: Seq<BlockEvalModel>, content: Seq<char>) -> bool {
    exists|i: int|
        0 <= i < blocks.len() && (#[trigger] blocks[i]).ignored_as is Some
            && blocks[i].block.content == content
}

/// Ignored entries no doc block has anymore: (reason, content)
pub open spec fn stale_spec(blocks: Seq<BlockEvalModel>, entries: Seq<EntryModel>) -> Seq<
    (Seq<char>, Seq<char>),
>
    decreases entries.len(),
{
    if entries.len() == 0 {
        Seq::empty()
    } else {
        let head = stale_spec(blocks, entries.drop_last());
        if content_in_use(blocks, entries.last().content) {
            head
        } else {
            head.push((entries.last().reason, entries.last().content))
        }
    }
}

fn is_content_in_use(blocks: &Vec<&BlockEval>, content: &str) -> (found: bool)
    ensures
        found == content_in_use(ref_models(blocks@), content@),
{
    let ghost views = ref_models(blocks@);
    let mut i: usize = 0;
    while i < blocks.len()
        invariant
            i <= blocks@.len(),
            views == ref_models(blocks@),
            forall|k: int|
                0 <= k < i ==> !((#[trigger] views[k]).ignored_as is Some
                    && views[k].block.content == content@),
        decreases blocks@.len() - i,
    {
        assert(views[i as int] == blocks@[i as int]@);
        if blocks[i].ignored_as.is_some() && text::same(
            blocks[i].block.content.as_str(),
            content,
        ) {
            return true;
        }
        i = i + 1;
    }
    false
}

/// Ignored entries no doc block has anymore: (reason, content)
pub fn stale_ignored(assemblies: &Vec<AssemblyEval>, ignored_blocks: &IgnoredBlocks) -> (stale: Vec<
    (String, String),
>)
    ensures
        repo::pair_views(stale@) == stale_spec(
            all_blocks(assembly_eval_models(assemblies@)),
            ignored_blocks@,
        ),
{
    let blocks = blocks_of(assemblies);
    let ghost views = ref_models(blocks@);
    let ghost entries = ignored_blocks@;
    let mut stale: Vec<(String, String)> = Vec::new();
    let mut i: usize = 0;
    assert(repo::pair_views(stale@) =~= stale_spec(views, entries.take(0)));
    while i < ignored_blocks.entries.len()
        invariant
            i <= ignored_blocks.entries@.len(),
            views == ref_models(blocks@),
            entries == ignored_blocks@,
            repo::pair_views(stale@) == stale_spec(views, entries.take(i as int)),
        decreases ignored_blocks.entries@.len() - i,
    {
        proof {
            assert(entries.take(i + 1).drop_last() =~= entries.take(i as int));
            assert(entries.take(i + 1).last() == ignored_blocks.entries@[i as int]@);
        }
        let entry = &ignored_blocks.entries[i];
        if !is_content_in_use(&blocks, entry.content.as_str()) {
            let ghost before = repo::pair_views(stale@);
            stale.push((entry.reason.clone(), entry.content.clone()));
            assert(repo::pair_views(stale@) =~= before.push((entry.reason@, entry.content@)));
        }
        i = i + 1;
    }
    assert(entries.take(i as int) =~= entries);
    stale
}

/// Whether some block is matched by the code with an index
pub open spec fn is_used(blocks: Seq<BlockEvalModel>, code: int) -> bool {
    exists|i: int| 0 <= i < blocks.len() && is_matched((#[trigger] blocks[i]).matches, code)
}

/// The indexes below `count` of code that matches no block
pub open spec fn unused_spec(blocks: Seq<BlockEvalModel>, count: int) -> Seq<usize>
    decreases count,
{
    if count <= 0 {
        Seq::empty()
    } else if is_used(blocks, count - 1) {
        unused_spec(blocks, count - 1)
    } else {
        unused_spec(blocks, count - 1).push((count - 1) as usize)
    }
}

fn has_match(list: &Vec<CodeMatch>, code: usize) -> (found: bool)
    ensures
        found == is_matched(match_models(list@), code as int),
{
    let ghost views = match_models(list@);
    let mut i: usize = 0;
    while i < list.len()
        invariant
            i <= list@.len(),
            views == match_models(list@),
            forall|k: int| 0 <= k < i ==> (#[trigger] views[k]).code != code,
        decreases list@.len() - i,
    {
        assert(views[i as int] == list@[i as int]@);
        if list[i].code == code {
            return true;
        }
        i = i + 1;
    }
    false
}

fn is_code_used(blocks: &Vec<&BlockEval>, code: usize) -> (found: bool)
    ensures
        found == is_used(ref_models(blocks@), code as int),
{
    let ghost views = ref_models(blocks@);
    let mut i: usize = 0;
    while i < blocks.len()
        invariant
            i <= blocks@.len(),
            views == ref_models(blocks@),
            forall|k: int| 0 <= k < i ==> !is_matched((#[trigger] views[k]).matches, code as int),
        decreases blocks@.len() - i,
    {
        assert(views[i as int] == blocks@[i as int]@);
        if has_match(&blocks[i].matches, code) {
            return true;
        }
        i = i + 1;
    }
    false
}

/// Marked code no doc block matches (indexes below `marked_count`)
pub fn unused_code(assemblies: &Vec<AssemblyEval>, marked_count: usize) -> (unused: Vec<usize>)
    ensures
        unused@ == unused_spec(
            all_blocks(assembly_eval_models(assemblies@)),
            marked_count as int,
        ),
{
    let blocks = blocks_of(assemblies);
    let ghost views = ref_models(blocks@);
    let mut unused: Vec<usize> = Vec::new();
    let mut i: usize = 0;
    assert(unused@ =~= unused_spec(views, 0));
    while i < marked_count
        invariant
            i <= marked_count,
            views == ref_models(blocks@),
            unused@ == unused_spec(views, i as int),
        decreases marked_count - i,
    {
        if !is_code_used(&blocks, i) {
            unused.push(i);
        }
        i = i + 1;
    }
    unused
}

// ---------------------------------------------------------------------------
// The whole evaluation
// ---------------------------------------------------------------------------

/// What is found for an assembly, an error saying which one it is
pub open spec fn evaluate_source_spec(
    source: SourceModel,
    marked: Seq<CodeModel>,
    entries: Seq<EntryModel>,
) -> Result<AssemblyEvalModel, Seq<char>> {
    lightbulb::in_context(
        evaluate_assembly_spec(source, marked, entries),
        "evaluating the assembly "@ + source.assembly.id,
    )
}

fn evaluate_source(source: AssemblySource, scan: &Scan, ignored_blocks: &IgnoredBlocks) -> (found:
    Result<AssemblyEval, String>)
    requires
        scan.wf(),
        source.wf(),
    ensures
        match found {
            Ok(found) => evaluate_source_spec(source@, scan@.marked, ignored_blocks@) == Ok::<
                _,
                Seq<char>,
            >(found@) && all_judged(found@.blocks, scan@.marked, ignored_blocks@),
            Err(error) => evaluate_source_spec(source@, scan@.marked, ignored_blocks@) == Err::<
                AssemblyEvalModel,
                _,
            >(error@),
        },
{
    let mut context = "evaluating the assembly ".to_owned();
    context.append(source.assembly.id.as_str());
    match evaluate_assembly(source, scan, ignored_blocks) {
        Err(error) => Err(lightbulb::error_in(context.as_str(), error)),
        Ok(found) => Ok(found),
    }
}

proof fn lemma_judged_push(
    before: Seq<AssemblyEvalModel>,
    next: AssemblyEvalModel,
    marked: Seq<CodeModel>,
    entries: Seq<EntryModel>,
)
    requires
        all_judged(all_blocks(before), marked, entries),
        all_judged(next.blocks, marked, entries),
    ensures
        all_judged(all_blocks(before.push(next)), marked, entries),
{
    assert(before.push(next).drop_last() =~= before);
}

/// What is found for each of some assemblies
pub open spec fn evaluate_assemblies_spec(
    sources: Seq<SourceModel>,
    marked: Seq<CodeModel>,
    entries: Seq<EntryModel>,
) -> Result<Seq<AssemblyEvalModel>, Seq<char>>
    decreases sources.len(),
{
    if sources.len() == 0 {
        Ok(Seq::empty())
    } else {
        match evaluate_assemblies_spec(sources.drop_last(), marked, entries) {
            Err(error) => Err(error),
            Ok(found) => match evaluate_source_spec(sources.last(), marked, entries) {
                Err(error) => Err(error),
                Ok(next) => Ok(found.push(next)),
            },
        }
    }
}

proof fn lemma_evaluate_assemblies_error(
    sources: Seq<SourceModel>,
    marked: Seq<CodeModel>,
    entries: Seq<EntryModel>,
    i: int,
)
    requires
        0 <= i <= sources.len(),
        evaluate_assemblies_spec(sources.take(i), marked, entries) is Err,
    ensures
        evaluate_assemblies_spec(sources, marked, entries) == evaluate_assemblies_spec(
            sources.take(i),
            marked,
            entries,
        ),
    decreases sources.len(),
{
    if i < sources.len() {
        assert(sources.drop_last().take(i) =~= sources.take(i));
        lemma_evaluate_assemblies_error(sources.drop_last(), marked, entries, i);
    } else {
        assert(sources.take(i) =~= sources);
    }
}

/// Everything found, before any candidates
pub open spec fn evaluate_spec(
    scan: RepoModel,
    entries: Seq<EntryModel>,
    sources: Seq<SourceModel>,
) -> Result<EvaluationModel, Seq<char>> {
    match evaluate_assemblies_spec(sources, scan.marked, entries) {
        Err(error) => Err(error),
        Ok(assemblies) => Ok(
            EvaluationModel {
                assemblies,
                scan,
                stale_ignored: stale_spec(all_blocks(assemblies), entries),
                unused: unused_spec(all_blocks(assemblies), scan.marked.len() as int),
            },
        ),
    }
}

fn evaluate_assemblies(
    sources: Vec<AssemblySource>,
    scan: &Scan,
    ignored_blocks: &IgnoredBlocks,
) -> (found: Result<Vec<AssemblyEval>, String>)
    requires
        scan.wf(),
        forall|i: int| 0 <= i < sources@.len() ==> (#[trigger] sources@[i]).wf(),
    ensures
        match found {
            Ok(found) => evaluate_assemblies_spec(
                source_models(sources@),
                scan@.marked,
                ignored_blocks@,
            ) == Ok::<_, Seq<char>>(assembly_eval_models(found@)) && all_judged(
                all_blocks(assembly_eval_models(found@)),
                scan@.marked,
                ignored_blocks@,
            ),
            Err(error) => evaluate_assemblies_spec(
                source_models(sources@),
                scan@.marked,
                ignored_blocks@,
            ) == Err::<Seq<AssemblyEvalModel>, _>(error@),
        },
{
    let ghost models = source_models(sources@);
    let ghost given = sources@;
    let ghost marked = scan@.marked;
    let ghost entries = ignored_blocks@;
    let mut rest = sources;
    let mut assemblies: Vec<AssemblyEval> = Vec::new();
    let ghost mut i: int = 0;
    proof {
        assert(assembly_eval_models(assemblies@) =~= Seq::<AssemblyEvalModel>::empty());
        assert(given.skip(0) =~= given);
        assert(all_blocks(assembly_eval_models(assemblies@)) =~= Seq::empty());
    }
    while rest.len() > 0
        invariant
            scan.wf(),
            marked == scan@.marked,
            entries == ignored_blocks@,
            forall|k: int| 0 <= k < given.len() ==> (#[trigger] given[k]).wf(),
            0 <= i <= given.len(),
            rest@ == given.skip(i),
            given == sources@,
            models == source_models(given),
            evaluate_assemblies_spec(models.take(i), marked, entries) == Ok::<_, Seq<char>>(
                assembly_eval_models(assemblies@),
            ),
            all_judged(all_blocks(assembly_eval_models(assemblies@)), marked, entries),
        decreases rest@.len(),
    {
        let ghost before = assembly_eval_models(assemblies@);
        proof {
            assert(rest@[0] == given[i]);
            assert(models.take(i + 1).drop_last() =~= models.take(i));
            assert(models.take(i + 1).last() == given[i]@);
        }
        let source = rest.remove(0);
        assert(rest@ =~= given.skip(i + 1));
        match evaluate_source(source, scan, ignored_blocks) {
            Err(error) => {
                proof {
                    lemma_evaluate_assemblies_error(models, marked, entries, i + 1);
                }
                return Err(error);
            },
            Ok(next) => {
                assemblies.push(next);
                proof {
                    assert(assembly_eval_models(assemblies@) =~= before.push(next@));
                    lemma_judged_push(before, next@, marked, entries);
                }
            },
        }
        proof {
            i = i + 1;
        }
    }
    proof {
        assert(i == given.len());
        assert(models.take(i) =~= models);
    }
    Ok(assemblies)
}

/// Evaluates every doc block of some assemblies against all marked code and the
/// ignored content
pub fn evaluate(
    scan: Scan,
    ignored_blocks: &IgnoredBlocks,
    sources: Vec<AssemblySource>,
) -> (found: Result<Evaluation, String>)
    requires
        scan.wf(),
        forall|i: int| 0 <= i < sources@.len() ==> (#[trigger] sources@[i]).wf(),
    ensures
        match found {
            Ok(found) => evaluate_spec(scan@, ignored_blocks@, source_models(sources@)) == Ok::<
                _,
                Seq<char>,
            >(found@) && found.wf() && all_judged(
                all_blocks(found@.assemblies),
                scan@.marked,
                ignored_blocks@,
            ),
            Err(error) => evaluate_spec(scan@, ignored_blocks@, source_models(sources@)) == Err::<
                EvaluationModel,
                _,
            >(error@),
        },
{
    match evaluate_assemblies(sources, &scan, ignored_blocks) {
        Err(error) => Err(error),
        Ok(assemblies) => {
            let stale = stale_ignored(&assemblies, ignored_blocks);
            let unused = unused_code(&assemblies, scan.marked.len());
            Ok(Evaluation { assemblies, scan, stale_ignored: stale, unused })
        },
    }
}

// ---------------------------------------------------------------------------
// Reading the assemblies
// ---------------------------------------------------------------------------

/// What some assembly files, given with their paths, hold
pub open spec fn read_assemblies_spec(files: Seq<(Seq<char>, Seq<char>)>) -> Result<
    Seq<AssemblyModel>,
    Seq<char>,
>
    decreases files.len(),
{
    if files.len() == 0 {
        Ok(Seq::empty())
    } else {
        match read_assemblies_spec(files.drop_last()) {
            Err(error) => Err(error),
            Ok(assemblies) => match lightbulb::in_context(
                docs::assembly_spec(files.last().0, files.last().1),
                "reading the assembly "@ + files.last().0,
            ) {
                Err(error) => Err(error),
                Ok(assembly) => Ok(assemblies.push(assembly)),
            },
        }
    }
}

proof fn lemma_read_assemblies_error(files: Seq<(Seq<char>, Seq<char>)>, i: int)
    requires
        0 <= i <= files.len(),
        read_assemblies_spec(files.take(i)) is Err,
    ensures
        read_assemblies_spec(files) == read_assemblies_spec(files.take(i)),
    decreases files.len(),
{
    if i < files.len() {
        assert(files.drop_last().take(i) =~= files.take(i));
        lemma_read_assemblies_error(files.drop_last(), i);
    } else {
        assert(files.take(i) =~= files);
    }
}

pub open spec fn assembly_models(list: Seq<Assembly>) -> Seq<AssemblyModel> {
    Seq::new(list.len(), |i: int| list[i]@)
}

/// The assemblies that some files, given with their paths, hold
pub fn read_assemblies(files: &Vec<(String, String)>) -> (assemblies: Result<
    Vec<Assembly>,
    String,
>)
    ensures
        match assemblies {
            Ok(assemblies) => read_assemblies_spec(repo::pair_views(files@)) == Ok::<_, Seq<char>>(
                assembly_models(assemblies@),
            ),
            Err(error) => read_assemblies_spec(repo::pair_views(files@)) == Err::<
                Seq<AssemblyModel>,
                _,
            >(error@),
        },
{
    let ghost views = repo::pair_views(files@);
    let mut assemblies: Vec<Assembly> = Vec::new();
    let mut i: usize = 0;
    assert(assembly_models(assemblies@) =~= Seq::<AssemblyModel>::empty());
    while i < files.len()
        invariant
            i <= files@.len(),
            views == repo::pair_views(files@),
            read_assemblies_spec(views.take(i as int)) == Ok::<_, Seq<char>>(
                assembly_models(assemblies@),
            ),
        decreases files@.len() - i,
    {
        let ghost before = assembly_models(assemblies@);
        proof {
            assert(views.take(i + 1).drop_last() =~= views.take(i as int));
            assert(views.take(i + 1).last() == (files@[i as int].0@, files@[i as int].1@));
        }
        match docs::read_assembly(files[i].0.as_str(), files[i].1.as_str()) {
            Err(error) => {
                proof {
                    lemma_read_assemblies_error(views, i + 1);
                }
                let mut context = "reading the assembly ".to_owned();
                context.append(files[i].0.as_str());
                return Err(lightbulb::error_in(context.as_str(), error));
            },
            Ok(assembly) => {
                assemblies.push(assembly);
                assert(assembly_models(assemblies@) =~= before.push(assembly@));
            },
        }
        i = i + 1;
    }
    assert(views.take(i as int) =~= views);
    Ok(assemblies)
}

/// Where the modules of some assemblies are, in order
pub open spec fn module_paths_spec(assemblies: Seq<AssemblyModel>) -> Seq<Seq<char>>
    decreases assemblies.len(),
{
    if assemblies.len() == 0 {
        Seq::empty()
    } else {
        module_paths_spec(assemblies.drop_last()) + paths_of(assemblies.last().modules)
    }
}

/// Where some modules are
pub open spec fn paths_of(modules: Seq<Seq<char>>) -> Seq<Seq<char>> {
    Seq::new(modules.len(), |i: int| "modules/"@ + modules[i] + ".adoc"@)
}

/// Where the modules of some assemblies are
pub fn module_paths(assemblies: &Vec<Assembly>) -> (paths: Vec<String>)
    ensures
        text::views(paths@) == module_paths_spec(assembly_models(assemblies@)),
{
    let ghost models = assembly_models(assemblies@);
    let mut paths: Vec<String> = Vec::new();
    let mut i: usize = 0;
    assert(text::views(paths@) =~= module_paths_spec(models.take(0)));
    while i < assemblies.len()
        invariant
            i <= assemblies@.len(),
            models == assembly_models(assemblies@),
            text::views(paths@) == module_paths_spec(models.take(i as int)),
        decreases assemblies@.len() - i,
    {
        let modules = &assemblies[i].modules;
        let ghost before = text::views(paths@);
        let ghost more = paths_of(text::views(modules@));
        proof {
            assert(models.take(i + 1).drop_last() =~= models.take(i as int));
            assert(models.take(i + 1).last().modules == text::views(modules@));
        }
        let mut k: usize = 0;
        assert(text::views(paths@) =~= before + more.take(0));
        while k < modules.len()
            invariant
                k <= modules@.len(),
                more == paths_of(text::views(modules@)),
                text::views(paths@) == before + more.take(k as int),
            decreases modules@.len() - k,
        {
            let path = docs::path_of_module(modules[k].as_str());
            proof {
                text::lemma_views_push(paths@, path);
                assert(text::views(modules@)[k as int] == modules@[k as int]@);
                assert((before + more.take(k as int)).push(more[k as int]) =~= before + more.take(
                    k + 1,
                ));
            }
            paths.push(path);
            k = k + 1;
        }
        assert(more.take(k as int) =~= more);
        i = i + 1;
    }
    assert(models.take(i as int) =~= models);
    paths
}

// ---------------------------------------------------------------------------
// Laws
// ---------------------------------------------------------------------------

/// A block is exactly one of resolved, ignored and still to resolve: it's resolved when
/// some marked code matches it, ignored when none does and its content is in the ignore
/// directory, and still to resolve otherwise
pub proof fn law_one_outcome(
    found: BlockEvalModel,
    marked: Seq<CodeModel>,
    entries: Seq<EntryModel>,
)
    requires
        is_judged(found, marked, entries),
    ensures
        found.is_resolved() == (exists|i: int|
            0 <= i < marked.len() && shows(found.block, #[trigger] marked[i])),
        found.is_resolved() ==> found.ignored_as is None,
        !found.is_resolved() ==> found.ignored_as == ignored::reason_spec(
            entries,
            found.block.content,
        ),
        !found.is_done() == (!found.is_resolved() && found.ignored_as is None),
{
    if found.is_resolved() {
        let code = found.matches[0].code as int;
        assert(is_matched(found.matches, code));
        assert(shows(found.block, marked[code]));
    }
    if exists|i: int| 0 <= i < marked.len() && shows(found.block, #[trigger] marked[i]) {
        let i = choose|i: int| 0 <= i < marked.len() && shows(found.block, #[trigger] marked[i]);
        assert(is_matched(found.matches, i));
    }
}

/// The unused code is the code that matches no block, each piece once and in order
pub proof fn law_unused_code(blocks: Seq<BlockEvalModel>, count: int)
    requires
        0 <= count <= usize::MAX,
    ensures
        forall|code: usize|
            #![trigger unused_spec(blocks, count).contains(code)]
            unused_spec(blocks, count).contains(code) == (code < count && !is_used(
                blocks,
                code as int,
            )),
        forall|i: int, j: int|
            0 <= i < j < unused_spec(blocks, count).len() ==> (#[trigger] unused_spec(
                blocks,
                count,
            )[i]) < (#[trigger] unused_spec(blocks, count)[j]),
    decreases count,
{
    let list = unused_spec(blocks, count);
    if count > 0 {
        let head = unused_spec(blocks, count - 1);
        law_unused_code(blocks, count - 1);
        assert forall|code: usize|
            #![trigger list.contains(code)]
            list.contains(code) == (code < count && !is_used(blocks, code as int)) by {
            if list.contains(code) {
                let i = choose|i: int| 0 <= i < list.len() && list[i] == code;
                if i < head.len() {
                    assert(head[i] == code);
                    assert(head.contains(code));
                }
            }
            if code < count && !is_used(blocks, code as int) {
                if code == count - 1 {
                    assert(list[head.len() as int] == code);
                } else {
                    assert(head.contains(code));
                    let i = choose|i: int| 0 <= i < head.len() && head[i] == code;
                    assert(list[i] == code);
                }
            }
        }
        assert forall|i: int, j: int| 0 <= i < j < list.len() implies (#[trigger] list[i]) < (
        #[trigger] list[j]) by {
            assert(list[i] == head[i]);
            if j < head.len() {
                assert(list[j] == head[j]);
            } else {
                assert(head.contains(head[i]));
            }
        }
    }
}

/// The stale entries are those whose content no ignored block has
pub proof fn law_stale_ignored(
    blocks: Seq<BlockEvalModel>,
    entries: Seq<EntryModel>,
    reason: Seq<char>,
    content: Seq<char>,
)
    ensures
        stale_spec(blocks, entries).contains((reason, content)) == (!content_in_use(
            blocks,
            content,
        ) && exists|i: int|
            0 <= i < entries.len() && (#[trigger] entries[i]).reason == reason
                && entries[i].content == content),
    decreases entries.len(),
{
    let list = stale_spec(blocks, entries);
    let pair = (reason, content);
    if entries.len() > 0 {
        let rest = entries.drop_last();
        let head = stale_spec(blocks, rest);
        law_stale_ignored(blocks, rest, reason, content);
        let last = entries.last();
        if list.contains(pair) {
            let k = choose|k: int| 0 <= k < list.len() && list[k] == pair;
            if k < head.len() {
                assert(head[k] == pair);
                assert(head.contains(pair));
                let i = choose|i: int|
                    0 <= i < rest.len() && (#[trigger] rest[i]).reason == reason
                        && rest[i].content == content;
                assert(entries[i] == rest[i]);
            } else {
                assert(entries[entries.len() - 1] == last);
            }
        }
        if !content_in_use(blocks, content) && exists|i: int|
            0 <= i < entries.len() && (#[trigger] entries[i]).reason == reason
                && entries[i].content == content {
            let i = choose|i: int|
                0 <= i < entries.len() && (#[trigger] entries[i]).reason == reason
                    && entries[i].content == content;
            if i == entries.len() - 1 {
                assert(list[head.len() as int] == pair);
            } else {
                assert(rest[i] == entries[i]);
                assert(head.contains(pair));
                let k = choose|k: int| 0 <= k < head.len() && head[k] == pair;
                assert(list[k] == pair);
            }
        }
    }
}

/// Only a block's content counts: blocks with the same content are resolved by the same
/// code with the same values, and ignored for the same reason, wherever they stand
pub proof fn law_only_content_counts(
    first: BlockModel,
    second: BlockModel,
    marked: Seq<CodeModel>,
    entries: Seq<EntryModel>,
)
    requires
        first.content == second.content,
    ensures
        match (
            evaluate_block_spec(first, marked, entries),
            evaluate_block_spec(second, marked, entries),
        ) {
            (Ok(a), Ok(b)) => a.matches == b.matches && a.ignored_as == b.ignored_as,
            (Err(_), Err(_)) => true,
            _ => false,
        },
    decreases marked.len(),
{
    if marked.len() > 0 {
        law_only_content_counts(first, second, marked.drop_last(), entries);
    }
}

} // verus!
