//! What `asadoc check` and `asadoc fix` report, as data: built from an
//! evaluation here, put into words by `check`.

use crate::candidates;
use crate::candidates::{CandidateInfo, CandidateInfoModel, ClosestBlock};
use crate::docs;
use crate::engines;
use crate::engines::LineChange;
use crate::eval;
use crate::eval::{
    AssemblyEval, AssemblyEvalModel, BlockEval, BlockEvalModel, CodeMatch, Evaluation,
    EvaluationModel, MatchModel,
};
use crate::lightbulb;
use crate::lightbulb::{LightbulbPlan, PlanModel};
use crate::lines;
use crate::matching::Values;
use crate::numbers;
use crate::repo;
use crate::repo::{CodeModel, MarkedCode, Problem, ProblemModel};
use crate::text;
use vstd::prelude::*;

verus! {

// ---------------------------------------------------------------------------
// Line differences
// ---------------------------------------------------------------------------

/// How far some code is from a doc block, in lines
#[derive(Debug, Clone, Copy, PartialEq, Eq, Structural)]
pub struct LineDiff {
    pub doc_lines: usize,
    /// Doc lines the code doesn't have
    pub differ: usize,
    /// Code lines the doc doesn't have
    pub extra: usize,
}

pub struct LineDiffModel {
    pub doc_lines: nat,
    pub differ: nat,
    pub extra: nat,
}

impl View for LineDiff {
    type V = LineDiffModel;

    open spec fn view(&self) -> LineDiffModel {
        LineDiffModel {
            doc_lines: self.doc_lines as nat,
            differ: self.differ as nat,
            extra: self.extra as nat,
        }
    }
}

/// How many of some changes are of a kind
pub open spec fn count_changes(changes: Seq<LineChange>, kind: LineChange) -> nat
    decreases changes.len(),
{
    if changes.len() == 0 {
        0
    } else if changes.last() == kind {
        count_changes(changes.drop_last(), kind) + 1
    } else {
        count_changes(changes.drop_last(), kind)
    }
}

proof fn lemma_count_changes(changes: Seq<LineChange>, kind: LineChange)
    ensures
        count_changes(changes, kind) <= changes.len(),
    decreases changes.len(),
{
    if changes.len() > 0 {
        lemma_count_changes(changes.drop_last(), kind);
    }
}

/// How far apart a doc and some code are, given the changes between them
pub open spec fn diff_with(doc: Seq<char>, changes: Seq<LineChange>) -> LineDiffModel {
    LineDiffModel {
        doc_lines: lines::lines_of(doc).len(),
        differ: count_changes(changes, LineChange::Delete),
        extra: count_changes(changes, LineChange::Insert),
    }
}

/// How far apart a doc and some code are
pub open spec fn diff_spec(doc: Seq<char>, code: Seq<char>) -> LineDiffModel {
    diff_with(doc, engines::line_changes_of(doc, code))
}

impl LineDiff {
    /// How far apart a doc and some code are, given the changes between them
    pub fn from_changes(doc: &str, changes: &Vec<LineChange>) -> (diff: Self)
        ensures
            diff@ == diff_with(doc@, changes@),
    {
        let mut differ: usize = 0;
        let mut extra: usize = 0;
        let mut i: usize = 0;
        while i < changes.len()
            invariant
                i <= changes@.len(),
                differ == count_changes(changes@.take(i as int), LineChange::Delete),
                extra == count_changes(changes@.take(i as int), LineChange::Insert),
            decreases changes@.len() - i,
        {
            proof {
                let next = changes@.take(i + 1);
                assert(next.drop_last() =~= changes@.take(i as int));
                assert(next.last() == changes@[i as int]);
                lemma_count_changes(next, LineChange::Delete);
                lemma_count_changes(next, LineChange::Insert);
            }
            match changes[i] {
                LineChange::Delete => {
                    differ = differ + 1;
                },
                LineChange::Insert => {
                    extra = extra + 1;
                },
                LineChange::Equal => {},
            }
            i = i + 1;
        }
        assert(changes@.take(i as int) =~= changes@);
        let doc_lines = lines::lines(doc);
        assert(text::views(doc_lines@).len() == doc_lines@.len());
        LineDiff { doc_lines: doc_lines.len(), differ, extra }
    }

    /// How far apart a doc and some code are
    pub fn new(doc: &str, code: &str) -> (diff: Self)
        ensures
            diff@ == diff_spec(doc@, code@),
    {
        let changes = engines::line_changes(doc, code);
        Self::from_changes(doc, &changes)
    }
}

/// A doc side and a code side, to show as a diff
#[derive(Debug)]
pub struct Sides {
    pub doc: String,
    pub doc_label: String,
    pub code: String,
    pub code_label: String,
}

pub struct SidesModel {
    pub doc: Seq<char>,
    pub doc_label: Seq<char>,
    pub code: Seq<char>,
    pub code_label: Seq<char>,
}

impl View for Sides {
    type V = SidesModel;

    open spec fn view(&self) -> SidesModel {
        SidesModel {
            doc: self.doc@,
            doc_label: self.doc_label@,
            code: self.code@,
            code_label: self.code_label@,
        }
    }
}

// ---------------------------------------------------------------------------
// Names and labels
// ---------------------------------------------------------------------------

/// How marked code is named to people
pub open spec fn code_name_spec(file: Seq<char>, section: Option<Seq<char>>) -> Seq<char> {
    match section {
        Some(section) => file + ", section \""@ + section + "\""@,
        None => file,
    }
}

/// How marked code is named to people, and on the command line
pub fn code_name(file: &str, section: &Option<String>) -> (name: String)
    ensures
        name@ == code_name_spec(file@, text::option_view(*section)),
{
    match section {
        Some(section) => {
            let mut name = text::surround(file, ", section \"", section.as_str());
            name.append("\"");
            name
        },
        None => file.to_owned(),
    }
}

/// How marked code is named to people
pub open spec fn describe_spec(code: CodeModel) -> Seq<char> {
    code_name_spec(code.file, code.section)
}

/// How marked code is named to people
pub fn describe(code: &MarkedCode) -> (name: String)
    ensures
        name@ == describe_spec(code@),
{
    code_name(code.file.as_str(), &code.section)
}

/// Where a block is in the docs
pub open spec fn location_spec(found: BlockEvalModel) -> Seq<char> {
    "modules/"@ + found.block.module + ".adoc:"@ + numbers::decimal_spec(found.block.line)
}

/// Where a block is in the docs
pub fn location(found: &BlockEval) -> (place: String)
    ensures
        place@ == location_spec(found@),
{
    let mut place = text::surround("modules/", found.block.module.as_str(), ".adoc:");
    let line = numbers::decimal(found.block.line);
    place.append(line.as_str());
    place
}

/// What the doc side of a diff is
pub open spec fn doc_label_spec(reference: Seq<char>, doc_options: bool) -> Seq<char> {
    "doc: "@ + reference + (if doc_options {
        " (doc options applied)"@
    } else {
        ""@
    })
}

/// What the doc side of a diff is
pub fn doc_label(found: &BlockEval, doc_options: bool) -> (label: String)
    ensures
        label@ == doc_label_spec(found@.block.reference, doc_options),
{
    text::surround(
        "doc: ",
        found.block.reference.as_str(),
        if doc_options {
            " (doc options applied)"
        } else {
            ""
        },
    )
}

/// What the code side of a diff is
pub open spec fn code_label_spec(name: Seq<char>, options: bool) -> Seq<char> {
    name + (if options {
        " (marker options applied)"@
    } else {
        ""@
    })
}

/// What the code side of a diff is
pub fn code_label(name: &str, options: bool) -> (label: String)
    ensures
        label@ == code_label_spec(name@, options),
{
    let mut label = name.to_owned();
    label.append(
        if options {
            " (marker options applied)"
        } else {
            ""
        },
    );
    label
}

// ---------------------------------------------------------------------------
// The code closest to a block
// ---------------------------------------------------------------------------

/// The repo code most like a doc block
#[derive(Debug)]
pub enum Closest {
    Marked { name: String, diff: LineDiff },
    UnmarkedFile { file: String, diff: LineDiff },
    /// Lines of a file that, marked as a section, would match
    Lines { file: String, from: usize, to: usize },
}

pub enum ClosestCode {
    Marked { name: Seq<char>, diff: LineDiffModel },
    UnmarkedFile { file: Seq<char>, diff: LineDiffModel },
    Lines { file: Seq<char>, from: nat, to: nat },
}

impl View for Closest {
    type V = ClosestCode;

    open spec fn view(&self) -> ClosestCode {
        match self {
            Closest::Marked { name, diff } => ClosestCode::Marked { name: name@, diff: diff@ },
            Closest::UnmarkedFile { file, diff } => ClosestCode::UnmarkedFile {
                file: file@,
                diff: diff@,
            },
            Closest::Lines { file, from, to } => ClosestCode::Lines {
                file: file@,
                from: *from as nat,
                to: *to as nat,
            },
        }
    }
}

/// A candidate as the code closest to a block
pub open spec fn closest_spec(candidate: CandidateInfoModel) -> ClosestCode {
    if candidate.kind == "unmarked-file"@ {
        ClosestCode::UnmarkedFile {
            file: candidate.file,
            diff: diff_spec(candidate.doc, candidate.content),
        }
    } else if candidate.kind == "lines"@ {
        let (from, to) = match candidate.lines {
            Some(range) => range,
            None => (0usize, 0usize),
        };
        ClosestCode::Lines { file: candidate.file, from: from as nat, to: to as nat }
    } else {
        ClosestCode::Marked {
            name: code_name_spec(candidate.file, candidate.name),
            diff: diff_spec(candidate.doc, candidate.content),
        }
    }
}

/// A candidate as the code closest to a block
pub fn closest(candidate: &CandidateInfo) -> (code: Closest)
    ensures
        code@ == closest_spec(candidate@),
{
    if text::same(candidate.kind, "unmarked-file") {
        Closest::UnmarkedFile {
            file: candidate.file.clone(),
            diff: LineDiff::new(candidate.doc.as_str(), candidate.content.as_str()),
        }
    } else if text::same(candidate.kind, "lines") {
        let (from, to) = match candidate.lines {
            Some(range) => range,
            None => (0usize, 0usize),
        };
        Closest::Lines { file: candidate.file.clone(), from, to }
    } else {
        Closest::Marked {
            name: code_name(candidate.file.as_str(), &candidate.name),
            diff: LineDiff::new(candidate.doc.as_str(), candidate.content.as_str()),
        }
    }
}

/// The changes that a candidate's plan would make
pub open spec fn fix_steps_spec(candidate: CandidateInfoModel) -> Option<Seq<Seq<char>>> {
    match candidate.plan {
        Some(plan) => Some(lightbulb::plan_words(plan, candidate.file, candidate.name)),
        None => None,
    }
}

/// Texts, if there are any
pub open spec fn steps_view(steps: Option<Vec<String>>) -> Option<Seq<Seq<char>>> {
    match steps {
        Some(steps) => Some(text::views(steps@)),
        None => None,
    }
}

/// The changes that a candidate's plan would make
pub fn fix_steps(candidate: &CandidateInfo) -> (steps: Option<Vec<String>>)
    ensures
        steps_view(steps) == fix_steps_spec(candidate@),
{
    match &candidate.plan {
        Some(plan) => Some(
            lightbulb::describe(plan, candidate.file.as_str(), &candidate.name),
        ),
        None => None,
    }
}

// ---------------------------------------------------------------------------
// The blocks still to resolve
// ---------------------------------------------------------------------------

/// A doc block still to resolve
#[derive(Debug)]
pub struct UnresolvedBlock {
    pub reference: String,
    pub location: String,
    pub closest: Option<Closest>,
    /// The changes `asadoc fix` would make
    pub fix: Option<Vec<String>>,
}

#[verifier::ext_equal]
pub struct UnresolvedModel {
    pub reference: Seq<char>,
    pub location: Seq<char>,
    pub closest: Option<ClosestCode>,
    pub fix: Option<Seq<Seq<char>>>,
}

/// Closest code, if there is any
pub open spec fn closest_view(code: Option<Closest>) -> Option<ClosestCode> {
    match code {
        Some(code) => Some(code@),
        None => None,
    }
}

impl View for UnresolvedBlock {
    type V = UnresolvedModel;

    open spec fn view(&self) -> UnresolvedModel {
        UnresolvedModel {
            reference: self.reference@,
            location: self.location@,
            closest: closest_view(self.closest),
            fix: steps_view(self.fix),
        }
    }
}

pub open spec fn unresolved_models(list: Seq<UnresolvedBlock>) -> Seq<UnresolvedModel> {
    Seq::new(list.len(), |i: int| list[i]@)
}

/// The blocks still to resolve in one assembly
#[derive(Debug)]
pub struct UnresolvedInAssembly {
    pub title: String,
    pub path: String,
    pub blocks: Vec<UnresolvedBlock>,
}

#[verifier::ext_equal]
pub struct UnresolvedInModel {
    pub title: Seq<char>,
    pub path: Seq<char>,
    pub blocks: Seq<UnresolvedModel>,
}

impl View for UnresolvedInAssembly {
    type V = UnresolvedInModel;

    open spec fn view(&self) -> UnresolvedInModel {
        UnresolvedInModel {
            title: self.title@,
            path: self.path@,
            blocks: unresolved_models(self.blocks@),
        }
    }
}

pub open spec fn unresolved_in_models(list: Seq<UnresolvedInAssembly>) -> Seq<UnresolvedInModel> {
    Seq::new(list.len(), |i: int| list[i]@)
}

/// What is reported of a block still to resolve
pub open spec fn unresolved_spec(found: BlockEvalModel) -> UnresolvedModel {
    UnresolvedModel {
        reference: found.block.reference,
        location: location_spec(found),
        closest: if found.candidates.len() > 0 {
            Some(closest_spec(found.candidates[0]))
        } else {
            None
        },
        fix: if found.candidates.len() > 0 {
            fix_steps_spec(found.candidates[0])
        } else {
            None
        },
    }
}

fn unresolved_block(found: &BlockEval) -> (block: UnresolvedBlock)
    ensures
        block@ == unresolved_spec(found@),
{
    let (closest_code, fix) = if found.candidates.len() > 0 {
        let top = &found.candidates[0];
        assert(found@.candidates[0] == top@);
        (Some(closest(top)), fix_steps(top))
    } else {
        (None, None)
    };
    UnresolvedBlock {
        reference: found.block.reference.clone(),
        location: location(found),
        closest: closest_code,
        fix,
    }
}

/// What is reported of the blocks still to resolve
pub open spec fn all_unresolved(blocks: Seq<BlockEvalModel>) -> Seq<UnresolvedModel>
    decreases blocks.len(),
{
    if blocks.len() == 0 {
        Seq::empty()
    } else if blocks.last().is_done() {
        all_unresolved(blocks.drop_last())
    } else {
        all_unresolved(blocks.drop_last()).push(unresolved_spec(blocks.last()))
    }
}

/// What is reported of an assembly with blocks still to resolve
pub open spec fn unresolved_in_spec(found: AssemblyEvalModel) -> Option<UnresolvedInModel> {
    let blocks = all_unresolved(found.blocks);
    if blocks.len() == 0 {
        None
    } else {
        Some(
            UnresolvedInModel {
                title: found.assembly.title,
                path: found.assembly.path,
                blocks,
            },
        )
    }
}

/// The blocks of an assembly still to resolve; None when there are none
pub fn unresolved_in_assembly(found: &AssemblyEval) -> (unresolved: Option<UnresolvedInAssembly>)
    ensures
        match unresolved {
            Some(unresolved) => unresolved_in_spec(found@) == Some(unresolved@),
            None => unresolved_in_spec(found@) is None,
        },
{
    let ghost models = found@.blocks;
    let mut blocks: Vec<UnresolvedBlock> = Vec::new();
    let mut i: usize = 0;
    assert(unresolved_models(blocks@) =~= all_unresolved(models.take(0)));
    while i < found.blocks.len()
        invariant
            i <= found.blocks@.len(),
            models == found@.blocks,
            unresolved_models(blocks@) == all_unresolved(models.take(i as int)),
        decreases found.blocks@.len() - i,
    {
        let ghost before = unresolved_models(blocks@);
        proof {
            assert(models.take(i + 1).drop_last() =~= models.take(i as int));
            assert(models.take(i + 1).last() == found.blocks@[i as int]@);
        }
        if !found.blocks[i].done() {
            let block = unresolved_block(&found.blocks[i]);
            blocks.push(block);
            assert(unresolved_models(blocks@) =~= before.push(block@));
        }
        i = i + 1;
    }
    proof {
        assert(models.take(i as int) =~= models);
        assert(blocks@.len() == unresolved_models(blocks@).len());
    }
    if blocks.len() == 0 {
        None
    } else {
        Some(
            UnresolvedInAssembly {
                title: found.assembly.title.clone(),
                path: found.assembly.path.clone(),
                blocks,
            },
        )
    }
}

/// What is reported of the assemblies with blocks still to resolve
pub open spec fn unresolved_by_assembly(assemblies: Seq<AssemblyEvalModel>) -> Seq<
    UnresolvedInModel,
>
    decreases assemblies.len(),
{
    if assemblies.len() == 0 {
        Seq::empty()
    } else {
        let head = unresolved_by_assembly(assemblies.drop_last());
        match unresolved_in_spec(assemblies.last()) {
            Some(unresolved) => head.push(unresolved),
            None => head,
        }
    }
}

fn unresolved_assemblies(assemblies: &Vec<AssemblyEval>) -> (unresolved: Vec<UnresolvedInAssembly>)
    ensures
        unresolved_in_models(unresolved@) == unresolved_by_assembly(
            eval::assembly_eval_models(assemblies@),
        ),
{
    let ghost models = eval::assembly_eval_models(assemblies@);
    let mut unresolved: Vec<UnresolvedInAssembly> = Vec::new();
    let mut i: usize = 0;
    assert(unresolved_in_models(unresolved@) =~= unresolved_by_assembly(models.take(0)));
    while i < assemblies.len()
        invariant
            i <= assemblies@.len(),
            models == eval::assembly_eval_models(assemblies@),
            unresolved_in_models(unresolved@) == unresolved_by_assembly(models.take(i as int)),
        decreases assemblies@.len() - i,
    {
        let ghost before = unresolved_in_models(unresolved@);
        proof {
            assert(models.take(i + 1).drop_last() =~= models.take(i as int));
            assert(models.take(i + 1).last() == assemblies@[i as int]@);
        }
        if let Some(found) = unresolved_in_assembly(&assemblies[i]) {
            unresolved.push(found);
            assert(unresolved_in_models(unresolved@) =~= before.push(found@));
        }
        i = i + 1;
    }
    assert(models.take(i as int) =~= models);
    unresolved
}

// ---------------------------------------------------------------------------
// The marked code no block matches
// ---------------------------------------------------------------------------

/// The ids of the code shown as the closest of some blocks still to resolve
pub open spec fn shown_ids(blocks: Seq<BlockEvalModel>) -> Seq<Seq<char>>
    decreases blocks.len(),
{
    if blocks.len() == 0 {
        Seq::empty()
    } else if blocks.last().is_done() || blocks.last().candidates.len() == 0 {
        shown_ids(blocks.drop_last())
    } else {
        shown_ids(blocks.drop_last()).push(blocks.last().candidates[0].id)
    }
}

/// The ids of the code shown as the closest of some block still to resolve
pub fn shown_code_ids(evaluation: &Evaluation) -> (ids: Vec<String>)
    ensures
        text::views(ids@) == shown_ids(eval::all_blocks(evaluation@.assemblies)),
{
    let blocks = eval::blocks_of(&evaluation.assemblies);
    let ghost models = eval::ref_models(blocks@);
    let mut ids: Vec<String> = Vec::new();
    let mut i: usize = 0;
    assert(text::views(ids@) =~= shown_ids(models.take(0)));
    while i < blocks.len()
        invariant
            i <= blocks@.len(),
            models == eval::ref_models(blocks@),
            text::views(ids@) == shown_ids(models.take(i as int)),
        decreases blocks@.len() - i,
    {
        let found = blocks[i];
        proof {
            assert(models.take(i + 1).drop_last() =~= models.take(i as int));
            assert(models.take(i + 1).last() == found@);
        }
        if !found.done() && found.candidates.len() > 0 {
            let id = found.candidates[0].id.clone();
            proof {
                assert(found@.candidates[0] == found.candidates@[0]@);
                text::lemma_views_push(ids@, id);
            }
            ids.push(id);
        }
        i = i + 1;
    }
    assert(models.take(i as int) =~= models);
    ids
}

/// Marked code no block matches, with the blocks it's compared with
pub struct UnusedDraft<'a> {
    pub name: String,
    pub drafts: Vec<ClosestBlock<'a>>,
}

#[verifier::ext_equal]
pub struct UnusedDraftModel {
    pub name: Seq<char>,
    pub drafts: Seq<candidates::ClosestModel>,
}

impl<'a> View for UnusedDraft<'a> {
    type V = UnusedDraftModel;

    open spec fn view(&self) -> UnusedDraftModel {
        UnusedDraftModel { name: self.name@, drafts: candidates::closest_models(self.drafts@) }
    }
}

pub open spec fn unused_draft_models<'a>(list: Seq<UnusedDraft<'a>>) -> Seq<UnusedDraftModel> {
    Seq::new(list.len(), |i: int| list[i]@)
}

/// The blocks that marked code with a name is compared with
pub open spec fn closest_drafts(code: CodeModel, blocks: Seq<BlockEvalModel>) -> Result<
    Seq<candidates::ClosestModel>,
    Seq<char>,
> {
    lightbulb::in_context(
        candidates::compared_spec(code, blocks),
        "finding the doc block closest to "@ + describe_spec(code),
    )
}

/// Marked code at an index, or that there is none
pub open spec fn marked_spec(marked: Seq<CodeModel>, index: int) -> Result<CodeModel, Seq<char>> {
    if index < marked.len() {
        Ok(marked[index])
    } else {
        Err(eval::no_code_message(index as nat))
    }
}

/// Marked code no block matches, by its index, with the blocks it's compared with; none
/// when it's already shown as some block's closest code
pub open spec fn unused_spec(evaluation: EvaluationModel, shown: Seq<Seq<char>>, index: int) -> Result<
    Option<UnusedDraftModel>,
    Seq<char>,
> {
    match lightbulb::in_context(
        marked_spec(evaluation.scan.marked, index),
        "looking up unmatched marked code"@,
    ) {
        Err(error) => Err(error),
        Ok(code) => if shown.contains(code.id) {
            Ok(None)
        } else {
            match closest_drafts(code, eval::all_blocks(evaluation.assemblies)) {
                Err(error) => Err(error),
                Ok(drafts) => Ok(Some(UnusedDraftModel { name: describe_spec(code), drafts })),
            }
        },
    }
}

/// All of the marked code no block matches that isn't shown already
pub open spec fn all_unused(
    evaluation: EvaluationModel,
    shown: Seq<Seq<char>>,
    unused: Seq<usize>,
) -> Result<Seq<UnusedDraftModel>, Seq<char>>
    decreases unused.len(),
{
    if unused.len() == 0 {
        Ok(Seq::empty())
    } else {
        match all_unused(evaluation, shown, unused.drop_last()) {
            Err(error) => Err(error),
            Ok(list) => match unused_spec(evaluation, shown, unused.last() as int) {
                Err(error) => Err(error),
                Ok(None) => Ok(list),
                Ok(Some(draft)) => Ok(list.push(draft)),
            },
        }
    }
}

proof fn lemma_all_unused_error(
    evaluation: EvaluationModel,
    shown: Seq<Seq<char>>,
    unused: Seq<usize>,
    i: int,
)
    requires
        0 <= i <= unused.len(),
        all_unused(evaluation, shown, unused.take(i)) is Err,
    ensures
        all_unused(evaluation, shown, unused) == all_unused(evaluation, shown, unused.take(i)),
    decreases unused.len(),
{
    if i < unused.len() {
        assert(unused.drop_last().take(i) =~= unused.take(i));
        lemma_all_unused_error(evaluation, shown, unused.drop_last(), i);
    } else {
        assert(unused.take(i) =~= unused);
    }
}

/// The blocks that marked code is compared with
fn drafts_for<'a>(evaluation: &'a Evaluation, code: &MarkedCode, name: &str) -> (drafts: Result<
    Vec<ClosestBlock<'a>>,
    String,
>)
    requires
        code.matcher.wf(),
        name@ == describe_spec(code@),
    ensures
        match drafts {
            Ok(drafts) => closest_drafts(code@, eval::all_blocks(evaluation@.assemblies)) == Ok::<
                _,
                Seq<char>,
            >(candidates::closest_models(drafts@)),
            Err(error) => closest_drafts(code@, eval::all_blocks(evaluation@.assemblies)) == Err::<
                Seq<candidates::ClosestModel>,
                _,
            >(error@),
        },
{
    match candidates::draft_closest(evaluation, code) {
        Ok(drafts) => Ok(drafts),
        Err(error) => {
            let mut context = "finding the doc block closest to ".to_owned();
            context.append(name);
            Err(lightbulb::error_in(context.as_str(), error))
        },
    }
}

/// Marked code no block matches, by its index, with the blocks it's compared with; None
/// when it's already shown as some block's closest code
pub fn unused_code<'a>(evaluation: &'a Evaluation, shown_code: &Vec<String>, index: usize) -> (
    draft: Result<Option<UnusedDraft<'a>>, String>)
    requires
        evaluation.wf(),
    ensures
        match draft {
            Ok(Some(draft)) => unused_spec(
                evaluation@,
                text::views(shown_code@),
                index as int,
            ) == Ok::<_, Seq<char>>(Some(draft@)),
            Ok(None) => unused_spec(evaluation@, text::views(shown_code@), index as int) == Ok::<
                _,
                Seq<char>,
            >(None::<UnusedDraftModel>),
            Err(error) => unused_spec(evaluation@, text::views(shown_code@), index as int)
                == Err::<Option<UnusedDraftModel>, _>(error@),
        },
{
    match evaluation.marked(index) {
        Err(error) => Err(lightbulb::error_in("looking up unmatched marked code", error)),
        Ok(code) => {
            if text::list_contains(shown_code, code.id.as_str()) {
                return Ok(None);
            }
            let name = describe(code);
            match drafts_for(evaluation, code, name.as_str()) {
                Err(error) => Err(error),
                Ok(drafts) => Ok(Some(UnusedDraft { name, drafts })),
            }
        },
    }
}

/// What is described of the marked code no block matches
pub open spec fn unused_drafts_spec(evaluation: EvaluationModel) -> Result<
    Seq<UnusedDraftModel>,
    Seq<char>,
> {
    lightbulb::in_context(
        all_unused(
            evaluation,
            shown_ids(eval::all_blocks(evaluation.assemblies)),
            evaluation.unused,
        ),
        "describing marked code no doc block matches"@,
    )
}

/// The marked code no block matches that isn't any block's closest code, with the blocks
/// it's compared with
pub fn unused_drafts<'a>(evaluation: &'a Evaluation) -> (drafts: Result<
    Vec<UnusedDraft<'a>>,
    String,
>)
    requires
        evaluation.wf(),
    ensures
        match drafts {
            Ok(drafts) => unused_drafts_spec(evaluation@) == Ok::<_, Seq<char>>(
                unused_draft_models(drafts@),
            ),
            Err(error) => unused_drafts_spec(evaluation@) == Err::<Seq<UnusedDraftModel>, _>(
                error@,
            ),
        },
{
    let shown = shown_code_ids(evaluation);
    let ghost ids = text::views(shown@);
    let ghost unused = evaluation@.unused;
    let mut drafts: Vec<UnusedDraft<'a>> = Vec::new();
    let mut i: usize = 0;
    assert(unused_draft_models(drafts@) =~= Seq::<UnusedDraftModel>::empty());
    while i < evaluation.unused.len()
        invariant
            i <= evaluation.unused@.len(),
            evaluation.wf(),
            ids == text::views(shown@),
            ids == shown_ids(eval::all_blocks(evaluation@.assemblies)),
            unused == evaluation.unused@,
            all_unused(evaluation@, ids, unused.take(i as int)) == Ok::<_, Seq<char>>(
                unused_draft_models(drafts@),
            ),
        decreases evaluation.unused@.len() - i,
    {
        let ghost before = unused_draft_models(drafts@);
        proof {
            assert(unused.take(i + 1).drop_last() =~= unused.take(i as int));
            assert(unused.take(i + 1).last() == unused[i as int]);
        }
        match unused_code(evaluation, &shown, evaluation.unused[i]) {
            Err(error) => {
                proof {
                    lemma_all_unused_error(evaluation@, ids, unused, i + 1);
                }
                return Err(
                    lightbulb::error_in("describing marked code no doc block matches", error),
                );
            },
            Ok(None) => {},
            Ok(Some(draft)) => {
                drafts.push(draft);
                assert(unused_draft_models(drafts@) =~= before.push(draft@));
            },
        }
        i = i + 1;
    }
    assert(unused.take(i as int) =~= unused);
    Ok(drafts)
}

/// Marked code no doc block matches
#[derive(Debug)]
pub struct Unused {
    pub name: String,
    /// The block most like it
    pub closest: Option<(String, LineDiff)>,
}

#[verifier::ext_equal]
pub struct UnusedModel {
    pub name: Seq<char>,
    pub closest: Option<(Seq<char>, LineDiffModel)>,
}

impl View for Unused {
    type V = UnusedModel;

    open spec fn view(&self) -> UnusedModel {
        UnusedModel {
            name: self.name@,
            closest: match self.closest {
                Some((reference, diff)) => Some((reference@, diff@)),
                None => None,
            },
        }
    }
}

pub open spec fn unused_models(list: Seq<Unused>) -> Seq<UnusedModel> {
    Seq::new(list.len(), |i: int| list[i]@)
}

/// What is reported of marked code no block matches
pub open spec fn unused_with(draft: UnusedDraftModel) -> UnusedModel {
    UnusedModel {
        name: draft.name,
        closest: match candidates::closest_spec(draft.drafts) {
            Some(closest) => Some(
                (closest.block.block.reference, diff_spec(closest.doc, closest.code)),
            ),
            None => None,
        },
    }
}

/// What is reported of each piece of marked code no block matches
pub open spec fn unused_with_all(drafts: Seq<UnusedDraftModel>) -> Seq<UnusedModel> {
    Seq::new(drafts.len(), |i: int| unused_with(drafts[i]))
}

fn describe_unused(draft: UnusedDraft<'_>) -> (unused: Unused)
    ensures
        unused@ == unused_with(draft@),
{
    let closest = match candidates::closest_block(draft.drafts) {
        Some(closest) => Some(
            (
                closest.block.block.reference.clone(),
                LineDiff::new(closest.doc.as_str(), closest.code.as_str()),
            ),
        ),
        None => None,
    };
    Unused { name: draft.name, closest }
}

fn describe_all_unused<'a>(drafts: Vec<UnusedDraft<'a>>) -> (unused: Vec<Unused>)
    ensures
        unused_models(unused@) == unused_with_all(unused_draft_models(drafts@)),
{
    let ghost given = drafts@;
    let ghost expected = unused_with_all(unused_draft_models(given));
    let mut rest = drafts;
    let mut unused: Vec<Unused> = Vec::new();
    assert(given.skip(0) =~= given);
    while rest.len() > 0
        invariant
            unused@.len() <= given.len(),
            rest@ == given.skip(unused@.len() as int),
            expected == unused_with_all(unused_draft_models(given)),
            forall|k: int| 0 <= k < unused@.len() ==> (#[trigger] unused@[k])@ == expected[k],
        decreases rest@.len(),
    {
        proof {
            assert(rest@[0] == given[unused@.len() as int]);
        }
        let draft = rest.remove(0);
        assert(rest@ =~= given.skip((unused@.len() + 1) as int));
        unused.push(describe_unused(draft));
    }
    assert(unused_models(unused@) =~= expected);
    unused
}

// ---------------------------------------------------------------------------
// Everything `asadoc check` reports
// ---------------------------------------------------------------------------

/// Everything `asadoc check` reports
#[derive(Debug)]
pub struct Summary {
    pub docs: String,
    pub total: usize,
    pub resolved: usize,
    pub ignored: usize,
    /// Blocks to resolve, by assembly
    pub unresolved: Vec<UnresolvedInAssembly>,
    /// Marked code no block matches that isn't any block's closest code
    pub unused: Vec<Unused>,
    /// (reason, first line) of ignored content no block has anymore
    pub stale_ignored: Vec<(String, String)>,
    pub problems: Vec<Problem>,
}

#[verifier::ext_equal]
pub struct SummaryModel {
    pub docs: Seq<char>,
    pub total: nat,
    pub resolved: nat,
    pub ignored: nat,
    pub unresolved: Seq<UnresolvedInModel>,
    pub unused: Seq<UnusedModel>,
    pub stale_ignored: Seq<(Seq<char>, Seq<char>)>,
    pub problems: Seq<ProblemModel>,
}

impl View for Summary {
    type V = SummaryModel;

    open spec fn view(&self) -> SummaryModel {
        SummaryModel {
            docs: self.docs@,
            total: self.total as nat,
            resolved: self.resolved as nat,
            ignored: self.ignored as nat,
            unresolved: unresolved_in_models(self.unresolved@),
            unused: unused_models(self.unused@),
            stale_ignored: repo::pair_views(self.stale_ignored@),
            problems: repo::problem_models(self.problems@),
        }
    }
}

/// How many blocks some marked code matches
pub open spec fn count_resolved(blocks: Seq<BlockEvalModel>) -> nat
    decreases blocks.len(),
{
    if blocks.len() == 0 {
        0
    } else if blocks.last().is_resolved() {
        count_resolved(blocks.drop_last()) + 1
    } else {
        count_resolved(blocks.drop_last())
    }
}

/// How many blocks are ignored
pub open spec fn count_ignored(blocks: Seq<BlockEvalModel>) -> nat
    decreases blocks.len(),
{
    if blocks.len() == 0 {
        0
    } else if blocks.last().ignored_as is Some {
        count_ignored(blocks.drop_last()) + 1
    } else {
        count_ignored(blocks.drop_last())
    }
}

proof fn lemma_counts(blocks: Seq<BlockEvalModel>)
    ensures
        count_resolved(blocks) <= blocks.len(),
        count_ignored(blocks) <= blocks.len(),
    decreases blocks.len(),
{
    if blocks.len() > 0 {
        lemma_counts(blocks.drop_last());
    }
}

/// How many blocks are still to resolve
pub open spec fn open_spec(summary: SummaryModel) -> nat {
    if summary.total > summary.resolved + summary.ignored {
        (summary.total - (summary.resolved + summary.ignored)) as nat
    } else {
        0
    }
}

/// How many of some blocks can be fixed
pub open spec fn fixable_in(blocks: Seq<UnresolvedModel>) -> nat
    decreases blocks.len(),
{
    if blocks.len() == 0 {
        0
    } else if blocks.last().fix is Some {
        fixable_in(blocks.drop_last()) + 1
    } else {
        fixable_in(blocks.drop_last())
    }
}

/// How many of the blocks to resolve can be fixed
pub open spec fn fixable_spec(unresolved: Seq<UnresolvedInModel>) -> nat
    decreases unresolved.len(),
{
    if unresolved.len() == 0 {
        0
    } else {
        fixable_spec(unresolved.drop_last()) + fixable_in(unresolved.last().blocks)
    }
}

/// Whether nothing needs attention: no block is still to resolve, no marked code is
/// unmatched and every marker can be read
pub open spec fn summary_ok(summary: SummaryModel) -> bool {
    open_spec(summary) == 0 && summary.unused.len() == 0 && summary.problems.len() == 0
}

/// The first line of a text
pub open spec fn first_line_of(s: Seq<char>) -> Seq<char> {
    if lines::lines_of(s).len() > 0 {
        lines::lines_of(s)[0]
    } else {
        ""@
    }
}

fn first_line(s: &str) -> (line: String)
    ensures
        line@ == first_line_of(s@),
{
    let list = lines::lines(s);
    assert(text::views(list@).len() == list@.len());
    if list.len() > 0 {
        assert(text::views(list@)[0] == list@[0]@);
        list[0].clone()
    } else {
        "".to_owned()
    }
}

/// What is reported of ignored content no block has anymore
pub open spec fn stale_lines(stale: Seq<(Seq<char>, Seq<char>)>) -> Seq<(Seq<char>, Seq<char>)> {
    Seq::new(stale.len(), |i: int| (stale[i].0, first_line_of(stale[i].1)))
}

fn describe_stale(stale: &Vec<(String, String)>) -> (described: Vec<(String, String)>)
    ensures
        repo::pair_views(described@) == stale_lines(repo::pair_views(stale@)),
{
    let ghost expected = stale_lines(repo::pair_views(stale@));
    let mut described: Vec<(String, String)> = Vec::new();
    let mut i: usize = 0;
    while i < stale.len()
        invariant
            i <= stale@.len(),
            described@.len() == i,
            expected == stale_lines(repo::pair_views(stale@)),
            forall|k: int|
                0 <= k < i ==> ((#[trigger] described@[k]).0@, described@[k].1@) == expected[k],
        decreases stale@.len() - i,
    {
        let line = first_line(stale[i].1.as_str());
        described.push((stale[i].0.clone(), line));
        i = i + 1;
    }
    assert(repo::pair_views(described@) =~= expected);
    described
}

/// A copy of some problems
pub fn clone_problems(problems: &Vec<Problem>) -> (copy: Vec<Problem>)
    ensures
        repo::problem_models(copy@) == repo::problem_models(problems@),
{
    let mut copy: Vec<Problem> = Vec::new();
    let mut i: usize = 0;
    while i < problems.len()
        invariant
            i <= problems@.len(),
            copy@.len() == i,
            forall|k: int| 0 <= k < i ==> (#[trigger] copy@[k])@ == problems@[k]@,
        decreases problems@.len() - i,
    {
        copy.push(problems[i].clone());
        i = i + 1;
    }
    assert(repo::problem_models(copy@) =~= repo::problem_models(problems@));
    copy
}

/// Everything `asadoc check` reports of an evaluation
pub open spec fn summary_spec(
    docs: Seq<char>,
    evaluation: EvaluationModel,
    unused: Seq<UnusedDraftModel>,
) -> SummaryModel {
    let blocks = eval::all_blocks(evaluation.assemblies);
    SummaryModel {
        docs,
        total: blocks.len(),
        resolved: count_resolved(blocks),
        ignored: count_ignored(blocks),
        unresolved: unresolved_by_assembly(evaluation.assemblies),
        unused: unused_with_all(unused),
        stale_ignored: stale_lines(evaluation.stale_ignored),
        problems: evaluation.scan.problems,
    }
}

fn count_blocks(blocks: &Vec<&BlockEval>) -> (counts: (usize, usize))
    ensures
        counts.0 == count_resolved(eval::ref_models(blocks@)),
        counts.1 == count_ignored(eval::ref_models(blocks@)),
{
    let ghost models = eval::ref_models(blocks@);
    let mut resolved: usize = 0;
    let mut ignored: usize = 0;
    let mut i: usize = 0;
    while i < blocks.len()
        invariant
            i <= blocks@.len(),
            models == eval::ref_models(blocks@),
            resolved == count_resolved(models.take(i as int)),
            ignored == count_ignored(models.take(i as int)),
        decreases blocks@.len() - i,
    {
        proof {
            let next = models.take(i + 1);
            assert(next.drop_last() =~= models.take(i as int));
            assert(next.last() == blocks@[i as int]@);
            lemma_counts(next);
        }
        if blocks[i].resolved() {
            resolved = resolved + 1;
        }
        if blocks[i].ignored_as.is_some() {
            ignored = ignored + 1;
        }
        i = i + 1;
    }
    assert(models.take(i as int) =~= models);
    (resolved, ignored)
}

impl Summary {
    /// Everything to report of an evaluation, given what the docs are called and the
    /// marked code no block matches, with its similarities to the blocks filled in
    pub fn build(docs: &str, evaluation: &Evaluation, unused: Vec<UnusedDraft<'_>>) -> (summary:
        Self)
        ensures
            summary@ == summary_spec(docs@, evaluation@, unused_draft_models(unused@)),
    {
        let blocks = eval::blocks_of(&evaluation.assemblies);
        let (resolved, ignored) = count_blocks(&blocks);
        assert(blocks@.len() == eval::ref_models(blocks@).len());
        Summary {
            docs: docs.to_owned(),
            total: blocks.len(),
            resolved,
            ignored,
            unresolved: unresolved_assemblies(&evaluation.assemblies),
            unused: describe_all_unused(unused),
            stale_ignored: describe_stale(&evaluation.stale_ignored),
            problems: clone_problems(&evaluation.scan.problems),
        }
    }

    /// How many blocks are still to resolve
    pub fn open(&self) -> (count: usize)
        ensures
            count == open_spec(self@),
    {
        if self.resolved > self.total {
            return 0;
        }
        let left: usize = self.total - self.resolved;
        if self.ignored > left {
            0
        } else {
            left - self.ignored
        }
    }

    /// How many of the blocks to resolve `asadoc fix` can fix
    pub fn fixable(&self) -> (count: usize)
        ensures
            count == fixable_spec(self@.unresolved),
    {
        let ghost models = self@.unresolved;
        let mut fixable: Vec<&UnresolvedBlock> = Vec::new();
        let mut i: usize = 0;
        while i < self.unresolved.len()
            invariant
                i <= self.unresolved@.len(),
                models == self@.unresolved,
                fixable@.len() == fixable_spec(models.take(i as int)),
            decreases self.unresolved@.len() - i,
        {
            let blocks = &self.unresolved[i].blocks;
            let ghost before = fixable@.len();
            let ghost views = unresolved_models(blocks@);
            proof {
                assert(models.take(i + 1).drop_last() =~= models.take(i as int));
                assert(models.take(i + 1).last().blocks == views);
            }
            let mut k: usize = 0;
            while k < blocks.len()
                invariant
                    k <= blocks@.len(),
                    views == unresolved_models(blocks@),
                    fixable@.len() == before + fixable_in(views.take(k as int)),
                decreases blocks@.len() - k,
            {
                proof {
                    assert(views.take(k + 1).drop_last() =~= views.take(k as int));
                    assert(views.take(k + 1).last() == blocks@[k as int]@);
                }
                if blocks[k].fix.is_some() {
                    fixable.push(&blocks[k]);
                }
                k = k + 1;
            }
            assert(views.take(k as int) =~= views);
            i = i + 1;
        }
        assert(models.take(i as int) =~= models);
        fixable.len()
    }

    /// Whether nothing needs attention: no block is still to resolve, no marked code is
    /// unmatched and every marker can be read
    pub fn ok(&self) -> (ok: bool)
        ensures
            ok == summary_ok(self@),
    {
        self.open() == 0 && self.unused.len() == 0 && self.problems.len() == 0
    }
}

// ---------------------------------------------------------------------------
// Checking blocks and code by name
// ---------------------------------------------------------------------------

/// What checking one given block or piece of marked code found
#[allow(inconsistent_fields)]
#[derive(Debug)]
pub enum Outcome {
    NotFound { name: String },
    Ignored { reference: String, reason: String },
    Resolved { reference: String, codes: Vec<String>, values: Values },
    /// No code matches the block; this is the closest
    Unmatched {
        reference: String,
        location: String,
        closest: Closest,
        fix: Option<Vec<String>>,
        sides: Sides,
    },
    /// Nothing in the repo resembles the block
    Alone { reference: String, location: String, content: String },
    /// `--against` code that doesn't match the block
    Mismatch { reference: String, location: String, code: String, sides: Sides },
    /// `--against` code whose doc options don't fit the block
    DocOptionsDontFit { reference: String, code: String },
    CodeMatches { name: String, blocks: Vec<String> },
    CodeUnmatched {
        name: String,
        /// The closest block: reference, location, diff
        closest: Option<(String, String, Sides)>,
    },
}

#[allow(inconsistent_fields)]
pub enum OutcomeModel {
    NotFound { name: Seq<char> },
    Ignored { reference: Seq<char>, reason: Seq<char> },
    Resolved {
        reference: Seq<char>,
        codes: Seq<Seq<char>>,
        values: Seq<(Seq<char>, Seq<char>)>,
    },
    Unmatched {
        reference: Seq<char>,
        location: Seq<char>,
        closest: ClosestCode,
        fix: Option<Seq<Seq<char>>>,
        sides: SidesModel,
    },
    Alone { reference: Seq<char>, location: Seq<char>, content: Seq<char> },
    Mismatch {
        reference: Seq<char>,
        location: Seq<char>,
        code: Seq<char>,
        sides: SidesModel,
    },
    DocOptionsDontFit { reference: Seq<char>, code: Seq<char> },
    CodeMatches { name: Seq<char>, blocks: Seq<Seq<char>> },
    CodeUnmatched { name: Seq<char>, closest: Option<(Seq<char>, Seq<char>, SidesModel)> },
}

impl View for Outcome {
    type V = OutcomeModel;

    open spec fn view(&self) -> OutcomeModel {
        match self {
            Outcome::NotFound { name } => OutcomeModel::NotFound { name: name@ },
            Outcome::Ignored { reference, reason } => OutcomeModel::Ignored {
                reference: reference@,
                reason: reason@,
            },
            Outcome::Resolved { reference, codes, values } => OutcomeModel::Resolved {
                reference: reference@,
                codes: text::views(codes@),
                values: values@,
            },
            Outcome::Unmatched { reference, location, closest, fix, sides } => {
                OutcomeModel::Unmatched {
                    reference: reference@,
                    location: location@,
                    closest: closest@,
                    fix: steps_view(*fix),
                    sides: sides@,
                }
            },
            Outcome::Alone { reference, location, content } => OutcomeModel::Alone {
                reference: reference@,
                location: location@,
                content: content@,
            },
            Outcome::Mismatch { reference, location, code, sides } => OutcomeModel::Mismatch {
                reference: reference@,
                location: location@,
                code: code@,
                sides: sides@,
            },
            Outcome::DocOptionsDontFit { reference, code } => OutcomeModel::DocOptionsDontFit {
                reference: reference@,
                code: code@,
            },
            Outcome::CodeMatches { name, blocks } => OutcomeModel::CodeMatches {
                name: name@,
                blocks: text::views(blocks@),
            },
            Outcome::CodeUnmatched { name, closest } => OutcomeModel::CodeUnmatched {
                name: name@,
                closest: match closest {
                    Some((reference, location, sides)) => Some((reference@, location@, sides@)),
                    None => None,
                },
            },
        }
    }
}

/// Whether a block is resolved or ignored, or marked code matches one
pub open spec fn outcome_ok(outcome: OutcomeModel) -> bool {
    outcome is Ignored || outcome is Resolved || outcome is CodeMatches
}

impl Outcome {
    /// Whether nothing is left to do
    pub fn ok(&self) -> (ok: bool)
        ensures
            ok == outcome_ok(self@),
    {
        match self {
            Outcome::Ignored { .. } => true,
            Outcome::Resolved { .. } => true,
            Outcome::CodeMatches { .. } => true,
            _ => false,
        }
    }
}

/// Whether a command-line argument names some marked code: by its id, as reports print
/// it, or by its file
pub open spec fn is_named(code: CodeModel, arg: Seq<char>) -> bool {
    code.id == arg || describe_spec(code) == arg || code.file == arg
}

/// The marked code that a command-line argument names
pub open spec fn find_code_spec(marked: Seq<CodeModel>, arg: Seq<char>) -> Seq<CodeModel>
    decreases marked.len(),
{
    if marked.len() == 0 {
        Seq::empty()
    } else if is_named(marked.last(), arg) {
        find_code_spec(marked.drop_last(), arg).push(marked.last())
    } else {
        find_code_spec(marked.drop_last(), arg)
    }
}

pub open spec fn code_ref_models(list: Seq<&MarkedCode>) -> Seq<CodeModel> {
    Seq::new(list.len(), |i: int| list[i]@)
}

/// Marked code a command-line argument names: `path` (all marked code in the
/// file), `path, section "name"` (as the report prints it) or `path#name`
pub fn find_code<'a>(evaluation: &'a Evaluation, arg: &str) -> (found: Vec<&'a MarkedCode>)
    requires
        evaluation.wf(),
    ensures
        code_ref_models(found@) == find_code_spec(evaluation@.scan.marked, arg@),
        forall|i: int| 0 <= i < found@.len() ==> (#[trigger] found@[i]).matcher.wf(),
{
    let marked = &evaluation.scan.marked;
    let ghost models = evaluation@.scan.marked;
    let mut found: Vec<&'a MarkedCode> = Vec::new();
    let mut i: usize = 0;
    assert(code_ref_models(found@) =~= find_code_spec(models.take(0), arg@));
    while i < marked.len()
        invariant
            i <= marked@.len(),
            *marked == evaluation.scan.marked,
            evaluation.wf(),
            models == evaluation@.scan.marked,
            code_ref_models(found@) == find_code_spec(models.take(i as int), arg@),
            forall|k: int| 0 <= k < found@.len() ==> (#[trigger] found@[k]).matcher.wf(),
        decreases marked@.len() - i,
    {
        let ghost before = code_ref_models(found@);
        let code = &marked[i];
        proof {
            assert(models.take(i + 1).drop_last() =~= models.take(i as int));
            assert(models.take(i + 1).last() == marked@[i as int]@);
        }
        let name = describe(code);
        if text::same(code.id.as_str(), arg) || text::same(name.as_str(), arg) || text::same(
            code.file.as_str(),
            arg,
        ) {
            found.push(code);
            assert(code_ref_models(found@) =~= before.push(code@));
        }
        i = i + 1;
    }
    assert(models.take(i as int) =~= models);
    found
}

/// Whether a block's match is with the given marked code
pub open spec fn matches_with(marked: Seq<CodeModel>, found: MatchModel, code: CodeModel) -> bool {
    found.code < marked.len() && marked[found.code as int].id == code.id
}

/// Whether a block's match is with the given marked code
pub fn is_match_with(evaluation: &Evaluation, code_match: &CodeMatch, code: &MarkedCode) -> (same:
    bool)
    requires
        evaluation.wf(),
    ensures
        same == matches_with(evaluation@.scan.marked, code_match@, code@),
{
    match evaluation.marked(code_match.code) {
        Ok(matched) => text::same(matched.id.as_str(), code.id.as_str()),
        Err(_) => false,
    }
}

/// The first of a block's matches that is with the given marked code, from the `i`th on
pub open spec fn first_match_with(
    marked: Seq<CodeModel>,
    list: Seq<MatchModel>,
    code: CodeModel,
    i: int,
) -> Option<MatchModel>
    decreases list.len() - i,
{
    if !(0 <= i < list.len()) {
        None
    } else if matches_with(marked, list[i], code) {
        Some(list[i])
    } else {
        first_match_with(marked, list, code, i + 1)
    }
}

fn find_match<'a>(evaluation: &Evaluation, found: &'a BlockEval, code: &MarkedCode) -> (first:
    Option<&'a CodeMatch>)
    requires
        evaluation.wf(),
    ensures
        match first {
            Some(first) => first_match_with(
                evaluation@.scan.marked,
                found@.matches,
                code@,
                0,
            ) == Some(first@),
            None => first_match_with(evaluation@.scan.marked, found@.matches, code@, 0) is None,
        },
{
    let ghost marked = evaluation@.scan.marked;
    let ghost list = found@.matches;
    let mut i: usize = 0;
    while i < found.matches.len()
        invariant
            i <= found.matches@.len(),
            evaluation.wf(),
            marked == evaluation@.scan.marked,
            list == found@.matches,
            first_match_with(marked, list, code@, 0) == first_match_with(
                marked,
                list,
                code@,
                i as int,
            ),
        decreases found.matches@.len() - i,
    {
        assert(list[i as int] == found.matches@[i as int]@);
        if is_match_with(evaluation, &found.matches[i], code) {
            return Some(&found.matches[i]);
        }
        i = i + 1;
    }
    None
}

/// Whether some marked code matches a block
pub fn matches_code(evaluation: &Evaluation, found: &BlockEval, code: &MarkedCode) -> (same: bool)
    requires
        evaluation.wf(),
    ensures
        same == first_match_with(evaluation@.scan.marked, found@.matches, code@, 0) is Some,
{
    find_match(evaluation, found, code).is_some()
}

/// The one piece of marked code that an argument names
pub open spec fn against_spec(marked: Seq<CodeModel>, arg: Seq<char>) -> Result<
    CodeModel,
    Seq<char>,
> {
    let found = find_code_spec(marked, arg);
    if found.len() == 1 {
        Ok(found[0])
    } else if found.len() == 0 {
        Err("no marked code named "@ + arg)
    } else {
        Err(
            arg + " has several marked sections; name one as `"@ + arg
                + ", section \"<name>\"`"@,
        )
    }
}

/// The one piece of marked code `--against` names
pub fn against_code<'a>(evaluation: &'a Evaluation, arg: &str) -> (code: Result<
    &'a MarkedCode,
    String,
>)
    requires
        evaluation.wf(),
    ensures
        match code {
            Ok(code) => against_spec(evaluation@.scan.marked, arg@) == Ok::<_, Seq<char>>(code@)
                && code.matcher.wf(),
            Err(error) => against_spec(evaluation@.scan.marked, arg@) == Err::<CodeModel, _>(
                error@,
            ),
        },
{
    let found = find_code(evaluation, arg);
    let ghost models = code_ref_models(found@);
    assert(models.len() == found@.len());
    if found.len() == 1 {
        assert(models[0] == found@[0]@);
        Ok(found[0])
    } else if found.len() == 0 {
        let mut message = "no marked code named ".to_owned();
        message.append(arg);
        Err(message)
    } else {
        let mut message = text::surround(
            arg,
            " has several marked sections; name one as `",
            arg,
        );
        message.append(", section \"<name>\"`");
        Err(message)
    }
}

/// What checking a block against some code finds
pub open spec fn block_against_spec(
    marked: Seq<CodeModel>,
    found: BlockEvalModel,
    code: CodeModel,
) -> Result<OutcomeModel, Seq<char>> {
    let reference = found.block.reference;
    match first_match_with(marked, found.matches, code, 0) {
        Some(first) => Ok(
            OutcomeModel::Resolved {
                reference,
                codes: seq![describe_spec(code)],
                values: first.values,
            },
        ),
        None => match lightbulb::in_context(
            eval::compare_spec(code, found.block),
            "comparing "@ + describe_spec(code) + " with "@ + reference,
        ) {
            Err(error) => Err(error),
            Ok(None) => Ok(
                OutcomeModel::DocOptionsDontFit { reference, code: describe_spec(code) },
            ),
            Ok(Some((doc, filled))) => Ok(
                OutcomeModel::Mismatch {
                    reference,
                    location: location_spec(found),
                    code: describe_spec(code),
                    sides: SidesModel {
                        doc,
                        doc_label: doc_label_spec(reference, code.doc_options.len() > 0),
                        code: filled,
                        code_label: code_label_spec(describe_spec(code), code.options.len() > 0),
                    },
                },
            ),
        },
    }
}

/// What checking a block against some code finds
pub fn block_against(evaluation: &Evaluation, found: &BlockEval, code: &MarkedCode) -> (outcome:
    Result<Outcome, String>)
    requires
        evaluation.wf(),
        code.matcher.wf(),
    ensures
        match outcome {
            Ok(outcome) => block_against_spec(evaluation@.scan.marked, found@, code@) == Ok::<
                _,
                Seq<char>,
            >(outcome@),
            Err(error) => block_against_spec(evaluation@.scan.marked, found@, code@) == Err::<
                OutcomeModel,
                _,
            >(error@),
        },
{
    let reference = found.block.reference.clone();
    let name = describe(code);
    if let Some(first) = find_match(evaluation, found, code) {
        let mut codes: Vec<String> = Vec::new();
        codes.push(name);
        assert(text::views(codes@) =~= seq![describe_spec(code@)]);
        return Ok(Outcome::Resolved { reference, codes, values: first.values.clone() });
    }
    assert(code@.doc_options.len() == code.doc_options@.len());
    assert(code@.options.len() == code.options@.len());
    match eval::compare(code, &found.block) {
        Err(error) => {
            let mut context = text::surround("comparing ", name.as_str(), " with ");
            context.append(reference.as_str());
            Err(lightbulb::error_in(context.as_str(), error))
        },
        Ok(None) => Ok(Outcome::DocOptionsDontFit { reference, code: name }),
        Ok(Some((doc, filled))) => {
            let sides = Sides {
                doc,
                doc_label: doc_label(found, code.doc_options.len() > 0),
                code: filled,
                code_label: code_label(name.as_str(), code.options.len() > 0),
            };
            Ok(Outcome::Mismatch { reference, location: location(found), code: name, sides })
        },
    }
}

/// The names of the code that a block matches
pub open spec fn match_names(marked: Seq<CodeModel>, list: Seq<MatchModel>) -> Result<
    Seq<Seq<char>>,
    Seq<char>,
>
    decreases list.len(),
{
    if list.len() == 0 {
        Ok(Seq::empty())
    } else {
        match match_names(marked, list.drop_last()) {
            Err(error) => Err(error),
            Ok(names) => match marked_spec(marked, list.last().code as int) {
                Err(error) => Err(error),
                Ok(code) => Ok(names.push(describe_spec(code))),
            },
        }
    }
}

proof fn lemma_match_names_error(marked: Seq<CodeModel>, list: Seq<MatchModel>, i: int)
    requires
        0 <= i <= list.len(),
        match_names(marked, list.take(i)) is Err,
    ensures
        match_names(marked, list) == match_names(marked, list.take(i)),
    decreases list.len(),
{
    if i < list.len() {
        assert(list.drop_last().take(i) =~= list.take(i));
        lemma_match_names_error(marked, list.drop_last(), i);
    } else {
        assert(list.take(i) =~= list);
    }
}

fn names_of_matches(evaluation: &Evaluation, list: &Vec<CodeMatch>) -> (names: Result<
    Vec<String>,
    String,
>)
    requires
        evaluation.wf(),
    ensures
        match names {
            Ok(names) => match_names(evaluation@.scan.marked, eval::match_models(list@)) == Ok::<
                _,
                Seq<char>,
            >(text::views(names@)),
            Err(error) => match_names(evaluation@.scan.marked, eval::match_models(list@)) == Err::<
                Seq<Seq<char>>,
                _,
            >(error@),
        },
{
    let ghost marked = evaluation@.scan.marked;
    let ghost models = eval::match_models(list@);
    let mut names: Vec<String> = Vec::new();
    let mut i: usize = 0;
    assert(text::views(names@) =~= Seq::<Seq<char>>::empty());
    while i < list.len()
        invariant
            i <= list@.len(),
            evaluation.wf(),
            marked == evaluation@.scan.marked,
            models == eval::match_models(list@),
            match_names(marked, models.take(i as int)) == Ok::<_, Seq<char>>(text::views(names@)),
        decreases list@.len() - i,
    {
        proof {
            assert(models.take(i + 1).drop_last() =~= models.take(i as int));
            assert(models.take(i + 1).last() == list@[i as int]@);
        }
        match evaluation.marked(list[i].code) {
            Err(error) => {
                proof {
                    lemma_match_names_error(marked, models, i + 1);
                }
                return Err(error);
            },
            Ok(code) => {
                let name = describe(code);
                proof {
                    text::lemma_views_push(names@, name);
                }
                names.push(name);
            },
        }
        i = i + 1;
    }
    assert(models.take(i as int) =~= models);
    Ok(names)
}

/// What checking a block finds
pub open spec fn block_outcome(marked: Seq<CodeModel>, found: BlockEvalModel) -> Result<
    OutcomeModel,
    Seq<char>,
> {
    let reference = found.block.reference;
    if let Some(reason) = found.ignored_as {
        Ok(OutcomeModel::Ignored { reference, reason })
    } else if found.matches.len() > 0 {
        match lightbulb::in_context(
            match_names(marked, found.matches),
            "describing the code "@ + reference + " matches"@,
        ) {
            Err(error) => Err(error),
            Ok(codes) => Ok(
                OutcomeModel::Resolved { reference, codes, values: found.matches[0].values },
            ),
        }
    } else if found.candidates.len() > 0 {
        let top = found.candidates[0];
        Ok(
            OutcomeModel::Unmatched {
                reference,
                location: location_spec(found),
                closest: closest_spec(top),
                fix: fix_steps_spec(top),
                sides: SidesModel {
                    doc: top.doc,
                    doc_label: doc_label_spec(reference, top.doc_options.len() > 0),
                    code: top.content,
                    code_label: code_label_spec(
                        code_name_spec(top.file, top.name),
                        top.options.len() > 0,
                    ),
                },
            },
        )
    } else {
        Ok(
            OutcomeModel::Alone {
                reference,
                location: location_spec(found),
                content: found.block.content,
            },
        )
    }
}

/// What checking a block finds: why it's ignored, the code it matches, the code closest
/// to it, or that nothing is like it
pub fn block(evaluation: &Evaluation, found: &BlockEval) -> (outcome: Result<Outcome, String>)
    requires
        evaluation.wf(),
    ensures
        match outcome {
            Ok(outcome) => block_outcome(evaluation@.scan.marked, found@) == Ok::<_, Seq<char>>(
                outcome@,
            ),
            Err(error) => block_outcome(evaluation@.scan.marked, found@) == Err::<
                OutcomeModel,
                _,
            >(error@),
        },
{
    let reference = found.block.reference.clone();
    if let Some(reason) = &found.ignored_as {
        return Ok(Outcome::Ignored { reference, reason: reason.clone() });
    }
    if found.matches.len() > 0 {
        assert(found@.matches[0] == found.matches@[0]@);
        return match names_of_matches(evaluation, &found.matches) {
            Err(error) => {
                let context = text::surround(
                    "describing the code ",
                    reference.as_str(),
                    " matches",
                );
                Err(lightbulb::error_in(context.as_str(), error))
            },
            Ok(codes) => Ok(
                Outcome::Resolved { reference, codes, values: found.matches[0].values.clone() },
            ),
        };
    }
    if found.candidates.len() > 0 {
        let top = &found.candidates[0];
        assert(found@.candidates[0] == top@);
        let name = code_name(top.file.as_str(), &top.name);
        let sides = Sides {
            doc: top.doc.clone(),
            doc_label: doc_label(found, top.doc_options.len() > 0),
            code: top.content.clone(),
            code_label: code_label(name.as_str(), top.options.len() > 0),
        };
        return Ok(
            Outcome::Unmatched {
                reference,
                location: location(found),
                closest: closest(top),
                fix: fix_steps(top),
                sides,
            },
        );
    }
    Ok(
        Outcome::Alone {
            reference,
            location: location(found),
            content: found.block.content.clone(),
        },
    )
}

/// What checking a block or marked code found, as far as it's known before the blocks
/// closest to the code are
pub enum OutcomeDraft<'a> {
    Done(Outcome),
    /// Code that no block matches, with the blocks it's compared with
    Unmatched {
        name: String,
        has_doc_options: bool,
        has_options: bool,
        drafts: Vec<ClosestBlock<'a>>,
    },
}

pub enum OutcomeDraftModel {
    Done(OutcomeModel),
    Unmatched {
        name: Seq<char>,
        has_doc_options: bool,
        has_options: bool,
        drafts: Seq<candidates::ClosestModel>,
    },
}

impl<'a> View for OutcomeDraft<'a> {
    type V = OutcomeDraftModel;

    open spec fn view(&self) -> OutcomeDraftModel {
        match self {
            OutcomeDraft::Done(outcome) => OutcomeDraftModel::Done(outcome@),
            OutcomeDraft::Unmatched { name, has_doc_options, has_options, drafts } => {
                OutcomeDraftModel::Unmatched {
                    name: name@,
                    has_doc_options: *has_doc_options,
                    has_options: *has_options,
                    drafts: candidates::closest_models(drafts@),
                }
            },
        }
    }
}

pub open spec fn outcome_draft_models<'a>(list: Seq<OutcomeDraft<'a>>) -> Seq<OutcomeDraftModel> {
    Seq::new(list.len(), |i: int| list[i]@)
}

/// The references of the blocks that some code matches
pub open spec fn matched_references(
    marked: Seq<CodeModel>,
    blocks: Seq<BlockEvalModel>,
    code: CodeModel,
) -> Seq<Seq<char>>
    decreases blocks.len(),
{
    if blocks.len() == 0 {
        Seq::empty()
    } else {
        let head = matched_references(marked, blocks.drop_last(), code);
        if first_match_with(marked, blocks.last().matches, code, 0) is Some {
            head.push(blocks.last().block.reference)
        } else {
            head
        }
    }
}

fn blocks_matching(evaluation: &Evaluation, code: &MarkedCode) -> (references: Vec<String>)
    requires
        evaluation.wf(),
    ensures
        text::views(references@) == matched_references(
            evaluation@.scan.marked,
            eval::all_blocks(evaluation@.assemblies),
            code@,
        ),
{
    let blocks = eval::blocks_of(&evaluation.assemblies);
    let ghost marked = evaluation@.scan.marked;
    let ghost models = eval::ref_models(blocks@);
    let mut references: Vec<String> = Vec::new();
    let mut i: usize = 0;
    assert(text::views(references@) =~= matched_references(marked, models.take(0), code@));
    while i < blocks.len()
        invariant
            i <= blocks@.len(),
            evaluation.wf(),
            marked == evaluation@.scan.marked,
            models == eval::ref_models(blocks@),
            text::views(references@) == matched_references(marked, models.take(i as int), code@),
        decreases blocks@.len() - i,
    {
        proof {
            assert(models.take(i + 1).drop_last() =~= models.take(i as int));
            assert(models.take(i + 1).last() == blocks@[i as int]@);
        }
        if matches_code(evaluation, blocks[i], code) {
            let reference = blocks[i].block.reference.clone();
            proof {
                text::lemma_views_push(references@, reference);
            }
            references.push(reference);
        }
        i = i + 1;
    }
    assert(models.take(i as int) =~= models);
    references
}

/// What checking some code finds
pub open spec fn code_outcome_spec(evaluation: EvaluationModel, code: CodeModel) -> Result<
    OutcomeDraftModel,
    Seq<char>,
> {
    let all = eval::all_blocks(evaluation.assemblies);
    let blocks = matched_references(evaluation.scan.marked, all, code);
    if blocks.len() > 0 {
        Ok(
            OutcomeDraftModel::Done(
                OutcomeModel::CodeMatches { name: describe_spec(code), blocks },
            ),
        )
    } else {
        match closest_drafts(code, all) {
            Err(error) => Err(error),
            Ok(drafts) => Ok(
                OutcomeDraftModel::Unmatched {
                    name: describe_spec(code),
                    has_doc_options: code.doc_options.len() > 0,
                    has_options: code.options.len() > 0,
                    drafts,
                },
            ),
        }
    }
}

/// What checking some code finds: the blocks it matches, or else those it's compared
/// with
pub fn code_outcome<'a>(evaluation: &'a Evaluation, code: &MarkedCode) -> (outcome: Result<
    OutcomeDraft<'a>,
    String,
>)
    requires
        evaluation.wf(),
        code.matcher.wf(),
    ensures
        match outcome {
            Ok(outcome) => code_outcome_spec(evaluation@, code@) == Ok::<_, Seq<char>>(outcome@),
            Err(error) => code_outcome_spec(evaluation@, code@) == Err::<OutcomeDraftModel, _>(
                error@,
            ),
        },
{
    let name = describe(code);
    let blocks = blocks_matching(evaluation, code);
    proof {
        assert(text::views(blocks@).len() == blocks@.len());
        assert(code@.doc_options.len() == code.doc_options@.len());
        assert(code@.options.len() == code.options@.len());
    }
    if blocks.len() > 0 {
        return Ok(OutcomeDraft::Done(Outcome::CodeMatches { name, blocks }));
    }
    match drafts_for(evaluation, code, name.as_str()) {
        Err(error) => Err(error),
        Ok(drafts) => Ok(
            OutcomeDraft::Unmatched {
                name,
                has_doc_options: code.doc_options.len() > 0,
                has_options: code.options.len() > 0,
                drafts,
            },
        ),
    }
}

/// What checking each of some pieces of code finds
pub open spec fn code_outcomes(evaluation: EvaluationModel, codes: Seq<CodeModel>) -> Result<
    Seq<OutcomeDraftModel>,
    Seq<char>,
>
    decreases codes.len(),
{
    if codes.len() == 0 {
        Ok(Seq::empty())
    } else {
        match code_outcomes(evaluation, codes.drop_last()) {
            Err(error) => Err(error),
            Ok(outcomes) => match lightbulb::in_context(
                code_outcome_spec(evaluation, codes.last()),
                "checking "@ + describe_spec(codes.last()),
            ) {
                Err(error) => Err(error),
                Ok(outcome) => Ok(outcomes.push(outcome)),
            },
        }
    }
}

proof fn lemma_code_outcomes_error(
    evaluation: EvaluationModel,
    codes: Seq<CodeModel>,
    i: int,
)
    requires
        0 <= i <= codes.len(),
        code_outcomes(evaluation, codes.take(i)) is Err,
    ensures
        code_outcomes(evaluation, codes) == code_outcomes(evaluation, codes.take(i)),
    decreases codes.len(),
{
    if i < codes.len() {
        assert(codes.drop_last().take(i) =~= codes.take(i));
        lemma_code_outcomes_error(evaluation, codes.drop_last(), i);
    } else {
        assert(codes.take(i) =~= codes);
    }
}

fn outcomes_of_codes<'a>(evaluation: &'a Evaluation, codes: &Vec<&MarkedCode>) -> (outcomes: Result<
    Vec<OutcomeDraft<'a>>,
    String,
>)
    requires
        evaluation.wf(),
        forall|i: int| 0 <= i < codes@.len() ==> (#[trigger] codes@[i]).matcher.wf(),
    ensures
        match outcomes {
            Ok(outcomes) => code_outcomes(evaluation@, code_ref_models(codes@)) == Ok::<
                _,
                Seq<char>,
            >(outcome_draft_models(outcomes@)),
            Err(error) => code_outcomes(evaluation@, code_ref_models(codes@)) == Err::<
                Seq<OutcomeDraftModel>,
                _,
            >(error@),
        },
{
    let ghost models = code_ref_models(codes@);
    let mut outcomes: Vec<OutcomeDraft<'a>> = Vec::new();
    let mut i: usize = 0;
    assert(outcome_draft_models(outcomes@) =~= Seq::<OutcomeDraftModel>::empty());
    while i < codes.len()
        invariant
            i <= codes@.len(),
            evaluation.wf(),
            forall|k: int| 0 <= k < codes@.len() ==> (#[trigger] codes@[k]).matcher.wf(),
            models == code_ref_models(codes@),
            code_outcomes(evaluation@, models.take(i as int)) == Ok::<_, Seq<char>>(
                outcome_draft_models(outcomes@),
            ),
        decreases codes@.len() - i,
    {
        let ghost before = outcome_draft_models(outcomes@);
        let code = codes[i];
        proof {
            assert(models.take(i + 1).drop_last() =~= models.take(i as int));
            assert(models.take(i + 1).last() == code@);
        }
        match code_outcome(evaluation, code) {
            Err(error) => {
                proof {
                    lemma_code_outcomes_error(evaluation@, models, i + 1);
                }
                let mut context = "checking ".to_owned();
                let name = describe(code);
                context.append(name.as_str());
                return Err(lightbulb::error_in(context.as_str(), error));
            },
            Ok(outcome) => {
                outcomes.push(outcome);
                assert(outcome_draft_models(outcomes@) =~= before.push(outcome@));
            },
        }
        i = i + 1;
    }
    assert(models.take(i as int) =~= models);
    Ok(outcomes)
}

/// What checking the block, or all the marked code, a name refers to finds
pub open spec fn name_outcomes_spec(
    evaluation: EvaluationModel,
    name: Seq<char>,
    against: Option<CodeModel>,
) -> Result<Seq<OutcomeDraftModel>, Seq<char>> {
    let marked = evaluation.scan.marked;
    match eval::with_reference(eval::all_blocks(evaluation.assemblies), name, 0) {
        Some(found) => {
            let outcome = match against {
                Some(code) => lightbulb::in_context(
                    block_against_spec(marked, found, code),
                    "checking "@ + name + " against "@ + describe_spec(code),
                ),
                None => lightbulb::in_context(block_outcome(marked, found), "checking "@ + name),
            };
            match outcome {
                Err(error) => Err(error),
                Ok(outcome) => Ok(seq![OutcomeDraftModel::Done(outcome)]),
            }
        },
        None => {
            let codes = find_code_spec(marked, name);
            if codes.len() == 0 {
                Ok(seq![OutcomeDraftModel::Done(OutcomeModel::NotFound { name })])
            } else {
                code_outcomes(evaluation, codes)
            }
        },
    }
}

/// What checking the block a name refers to finds
fn outcome_of_block(
    evaluation: &Evaluation,
    name: &str,
    found: &BlockEval,
    against: Option<&MarkedCode>,
) -> (outcome: Result<Outcome, String>)
    requires
        evaluation.wf(),
        against matches Some(code) ==> code.matcher.wf(),
    ensures
        ({
            let expected = match against {
                Some(code) => lightbulb::in_context(
                    block_against_spec(evaluation@.scan.marked, found@, code@),
                    "checking "@ + name@ + " against "@ + describe_spec(code@),
                ),
                None => lightbulb::in_context(
                    block_outcome(evaluation@.scan.marked, found@),
                    "checking "@ + name@,
                ),
            };
            match outcome {
                Ok(outcome) => expected == Ok::<_, Seq<char>>(outcome@),
                Err(error) => expected == Err::<OutcomeModel, _>(error@),
            }
        }),
{
    match against {
        Some(code) => match block_against(evaluation, found, code) {
            Ok(outcome) => Ok(outcome),
            Err(error) => {
                let mut context = text::surround("checking ", name, " against ");
                let code_words = describe(code);
                context.append(code_words.as_str());
                Err(lightbulb::error_in(context.as_str(), error))
            },
        },
        None => match block(evaluation, found) {
            Ok(outcome) => Ok(outcome),
            Err(error) => {
                let mut context = "checking ".to_owned();
                context.append(name);
                Err(lightbulb::error_in(context.as_str(), error))
            },
        },
    }
}

/// What checking the block, or all the marked code, a name refers to found
pub fn name_outcomes<'a>(
    evaluation: &'a Evaluation,
    name: &str,
    against: Option<&MarkedCode>,
) -> (outcomes: Result<Vec<OutcomeDraft<'a>>, String>)
    requires
        evaluation.wf(),
        against matches Some(code) ==> code.matcher.wf(),
    ensures
        match outcomes {
            Ok(outcomes) => name_outcomes_spec(
                evaluation@,
                name@,
                candidates::code_view(against),
            ) == Ok::<_, Seq<char>>(outcome_draft_models(outcomes@)),
            Err(error) => name_outcomes_spec(
                evaluation@,
                name@,
                candidates::code_view(against),
            ) == Err::<Seq<OutcomeDraftModel>, _>(error@),
        },
{
    if let Some(found) = evaluation.find_any(name) {
        return match outcome_of_block(evaluation, name, found, against) {
            Err(error) => Err(error),
            Ok(outcome) => {
                let mut outcomes: Vec<OutcomeDraft<'a>> = Vec::new();
                let ghost model = outcome@;
                outcomes.push(OutcomeDraft::Done(outcome));
                assert(outcome_draft_models(outcomes@) =~= seq![OutcomeDraftModel::Done(model)]);
                Ok(outcomes)
            },
        };
    }
    let codes = find_code(evaluation, name);
    assert(code_ref_models(codes@).len() == codes@.len());
    if codes.len() == 0 {
        let mut outcomes: Vec<OutcomeDraft<'a>> = Vec::new();
        outcomes.push(OutcomeDraft::Done(Outcome::NotFound { name: name.to_owned() }));
        assert(outcome_draft_models(outcomes@) =~= seq![
            OutcomeDraftModel::Done(OutcomeModel::NotFound { name: name@ }),
        ]);
        return Ok(outcomes);
    }
    outcomes_of_codes(evaluation, &codes)
}

/// What checking each of some names finds, one after the other
pub open spec fn all_outcomes(
    evaluation: EvaluationModel,
    names: Seq<Seq<char>>,
    against: Option<CodeModel>,
) -> Result<Seq<OutcomeDraftModel>, Seq<char>>
    decreases names.len(),
{
    if names.len() == 0 {
        Ok(Seq::empty())
    } else {
        match all_outcomes(evaluation, names.drop_last(), against) {
            Err(error) => Err(error),
            Ok(outcomes) => match name_outcomes_spec(evaluation, names.last(), against) {
                Err(error) => Err(error),
                Ok(more) => Ok(outcomes + more),
            },
        }
    }
}

proof fn lemma_all_outcomes_error(
    evaluation: EvaluationModel,
    names: Seq<Seq<char>>,
    against: Option<CodeModel>,
    i: int,
)
    requires
        0 <= i <= names.len(),
        all_outcomes(evaluation, names.take(i), against) is Err,
    ensures
        all_outcomes(evaluation, names, against) == all_outcomes(
            evaluation,
            names.take(i),
            against,
        ),
    decreases names.len(),
{
    if i < names.len() {
        assert(names.drop_last().take(i) =~= names.take(i));
        lemma_all_outcomes_error(evaluation, names.drop_last(), against, i);
    } else {
        assert(names.take(i) =~= names);
    }
}

/// What checking blocks or marked code by name finds
pub open spec fn outcomes_spec(
    evaluation: EvaluationModel,
    names: Seq<Seq<char>>,
    against: Option<Seq<char>>,
) -> Result<Seq<OutcomeDraftModel>, Seq<char>> {
    match against {
        None => all_outcomes(evaluation, names, None),
        Some(arg) => match against_spec(evaluation.scan.marked, arg) {
            Err(error) => Err(error),
            Ok(code) => all_outcomes(evaluation, names, Some(code)),
        },
    }
}

fn outcomes_against<'a>(
    evaluation: &'a Evaluation,
    names: &Vec<String>,
    against: Option<&MarkedCode>,
) -> (outcomes: Result<Vec<OutcomeDraft<'a>>, String>)
    requires
        evaluation.wf(),
        against matches Some(code) ==> code.matcher.wf(),
    ensures
        match outcomes {
            Ok(outcomes) => all_outcomes(
                evaluation@,
                text::views(names@),
                candidates::code_view(against),
            ) == Ok::<_, Seq<char>>(outcome_draft_models(outcomes@)),
            Err(error) => all_outcomes(
                evaluation@,
                text::views(names@),
                candidates::code_view(against),
            ) == Err::<Seq<OutcomeDraftModel>, _>(error@),
        },
{
    let ghost views = text::views(names@);
    let ghost code = candidates::code_view(against);
    let mut outcomes: Vec<OutcomeDraft<'a>> = Vec::new();
    let mut i: usize = 0;
    assert(outcome_draft_models(outcomes@) =~= Seq::<OutcomeDraftModel>::empty());
    while i < names.len()
        invariant
            i <= names@.len(),
            evaluation.wf(),
            against matches Some(code) ==> code.matcher.wf(),
            views == text::views(names@),
            code == candidates::code_view(against),
            all_outcomes(evaluation@, views.take(i as int), code) == Ok::<_, Seq<char>>(
                outcome_draft_models(outcomes@),
            ),
        decreases names@.len() - i,
    {
        let ghost before = outcome_draft_models(outcomes@);
        proof {
            assert(views.take(i + 1).drop_last() =~= views.take(i as int));
            assert(views.take(i + 1).last() == names@[i as int]@);
        }
        match name_outcomes(evaluation, names[i].as_str(), against) {
            Err(error) => {
                proof {
                    lemma_all_outcomes_error(evaluation@, views, code, i + 1);
                }
                return Err(error);
            },
            Ok(more) => {
                let mut more = more;
                let ghost added = outcome_draft_models(more@);
                outcomes.append(&mut more);
                assert(outcome_draft_models(outcomes@) =~= before + added);
            },
        }
        i = i + 1;
    }
    assert(views.take(i as int) =~= views);
    Ok(outcomes)
}

/// Checks blocks or marked code by name. With `against`, blocks are compared
/// with that marked code instead of their closest.
pub fn outcomes<'a>(
    evaluation: &'a Evaluation,
    names: &Vec<String>,
    against: &Option<String>,
) -> (outcomes: Result<Vec<OutcomeDraft<'a>>, String>)
    requires
        evaluation.wf(),
    ensures
        match outcomes {
            Ok(outcomes) => outcomes_spec(
                evaluation@,
                text::views(names@),
                text::option_view(*against),
            ) == Ok::<_, Seq<char>>(outcome_draft_models(outcomes@)),
            Err(error) => outcomes_spec(
                evaluation@,
                text::views(names@),
                text::option_view(*against),
            ) == Err::<Seq<OutcomeDraftModel>, _>(error@),
        },
{
    match against {
        None => outcomes_against(evaluation, names, None),
        Some(arg) => match against_code(evaluation, arg.as_str()) {
            Err(error) => Err(error),
            Ok(code) => outcomes_against(evaluation, names, Some(code)),
        },
    }
}

/// What checking a block or marked code found, with the block closest to code that none
/// matches
pub open spec fn finished(draft: OutcomeDraftModel) -> OutcomeModel {
    match draft {
        OutcomeDraftModel::Done(outcome) => outcome,
        OutcomeDraftModel::Unmatched { name, has_doc_options, has_options, drafts } => {
            OutcomeModel::CodeUnmatched {
                name,
                closest: match candidates::closest_spec(drafts) {
                    None => None,
                    Some(closest) => Some(
                        (
                            closest.block.block.reference,
                            location_spec(closest.block),
                            SidesModel {
                                doc: closest.doc,
                                doc_label: doc_label_spec(
                                    closest.block.block.reference,
                                    has_doc_options,
                                ),
                                code: closest.code,
                                code_label: code_label_spec(name, has_options),
                            },
                        ),
                    ),
                },
            }
        },
    }
}

/// What checking a block or marked code found, once the similarities of the blocks it's
/// compared with are filled in
pub fn finish_outcome(draft: OutcomeDraft<'_>) -> (outcome: Outcome)
    ensures
        outcome@ == finished(draft@),
{
    match draft {
        OutcomeDraft::Done(outcome) => outcome,
        OutcomeDraft::Unmatched { name, has_doc_options, has_options, drafts } => {
            let closest = match candidates::closest_block(drafts) {
                None => None,
                Some(closest) => {
                    let sides = Sides {
                        doc: closest.doc,
                        doc_label: doc_label(closest.block, has_doc_options),
                        code: closest.code,
                        code_label: code_label(name.as_str(), has_options),
                    };
                    Some(
                        (
                            closest.block.block.reference.clone(),
                            location(closest.block),
                            sides,
                        ),
                    )
                },
            };
            Outcome::CodeUnmatched { name, closest }
        },
    }
}

// ---------------------------------------------------------------------------
// Fixing a block
// ---------------------------------------------------------------------------

/// What `asadoc fix` did
#[derive(Debug)]
pub enum FixOutcome {
    AlreadyDone,
    NoFix,
    Applied { file: String, steps: Vec<String>, resolved: bool },
}

impl FixOutcome {
    /// Whether the block is resolved or ignored now
    pub fn ok(&self) -> (ok: bool)
        ensures
            ok == (self is AlreadyDone || (self is Applied && self->resolved)),
    {
        match self {
            FixOutcome::AlreadyDone => true,
            FixOutcome::NoFix => false,
            FixOutcome::Applied { resolved, .. } => *resolved,
        }
    }
}

/// What `asadoc fix` is to do
#[derive(Debug)]
pub enum FixChoice {
    AlreadyDone,
    NoFix,
    /// Change marked code, or a file, by a plan
    Change { file: String, name: Option<String>, plan: LightbulbPlan, steps: Vec<String> },
}

pub enum ChoiceModel {
    AlreadyDone,
    NoFix,
    Change {
        file: Seq<char>,
        name: Option<Seq<char>>,
        plan: PlanModel,
        steps: Seq<Seq<char>>,
    },
}

impl View for FixChoice {
    type V = ChoiceModel;

    open spec fn view(&self) -> ChoiceModel {
        match self {
            FixChoice::AlreadyDone => ChoiceModel::AlreadyDone,
            FixChoice::NoFix => ChoiceModel::NoFix,
            FixChoice::Change { file, name, plan, steps } => ChoiceModel::Change {
                file: file@,
                name: text::option_view(*name),
                plan: plan@,
                steps: text::views(steps@),
            },
        }
    }
}

/// What the first candidate with a plan, from the `i`th on, would change
pub open spec fn first_plan(list: Seq<CandidateInfoModel>, i: int) -> ChoiceModel
    decreases list.len() - i,
{
    if !(0 <= i < list.len()) {
        ChoiceModel::NoFix
    } else {
        match list[i].plan {
            Some(plan) => ChoiceModel::Change {
                file: list[i].file,
                name: list[i].name,
                plan,
                steps: lightbulb::plan_words(plan, list[i].file, list[i].name),
            },
            None => first_plan(list, i + 1),
        }
    }
}

/// What `asadoc fix` is to do for a block
pub open spec fn fix_spec(evaluation: EvaluationModel, reference: Seq<char>) -> Result<
    ChoiceModel,
    Seq<char>,
> {
    match eval::with_reference(eval::all_blocks(evaluation.assemblies), reference, 0) {
        None => Err("no doc block "@ + reference + " in the configured assemblies"@),
        Some(found) => if found.is_done() {
            Ok(ChoiceModel::AlreadyDone)
        } else {
            Ok(first_plan(found.candidates, 0))
        },
    }
}

/// The change `asadoc check` lists under a block
pub fn fix(evaluation: &Evaluation, reference: &str) -> (choice: Result<FixChoice, String>)
    ensures
        match choice {
            Ok(choice) => fix_spec(evaluation@, reference@) == Ok::<_, Seq<char>>(choice@),
            Err(error) => fix_spec(evaluation@, reference@) == Err::<ChoiceModel, _>(error@),
        },
{
    let found = match evaluation.find_any(reference) {
        Some(found) => found,
        None => return Err(
            text::surround("no doc block ", reference, " in the configured assemblies"),
        ),
    };
    if found.done() {
        return Ok(FixChoice::AlreadyDone);
    }
    let ghost models = found@.candidates;
    let mut i: usize = 0;
    while i < found.candidates.len()
        invariant
            i <= found.candidates@.len(),
            models == found@.candidates,
            fix_spec(evaluation@, reference@) == Ok::<_, Seq<char>>(first_plan(models, i as int)),
        decreases found.candidates@.len() - i,
    {
        let candidate = &found.candidates[i];
        assert(models[i as int] == candidate@);
        if let Some(plan) = &candidate.plan {
            let steps = lightbulb::describe(plan, candidate.file.as_str(), &candidate.name);
            return Ok(
                FixChoice::Change {
                    file: candidate.file.clone(),
                    name: docs::clone_text(&candidate.name),
                    plan: plan.clone(),
                    steps,
                },
            );
        }
        i = i + 1;
    }
    Ok(FixChoice::NoFix)
}

/// Whether a block with a reference is resolved
pub open spec fn is_resolved_in(blocks: Seq<BlockEvalModel>, reference: Seq<char>) -> bool {
    exists|i: int|
        0 <= i < blocks.len() && (#[trigger] blocks[i]).block.reference == reference
            && blocks[i].is_resolved()
}

/// What a change by `asadoc fix` came to, given the blocks evaluated again
pub fn fix_applied(
    file: String,
    steps: Vec<String>,
    after: &Evaluation,
    reference: &str,
) -> (outcome: FixOutcome)
    ensures
        outcome == (FixOutcome::Applied {
            file,
            steps,
            resolved: is_resolved_in(eval::all_blocks(after@.assemblies), reference@),
        }),
{
    let blocks = eval::blocks_of(&after.assemblies);
    let ghost models = eval::ref_models(blocks@);
    let mut resolved = false;
    let mut i: usize = 0;
    while i < blocks.len()
        invariant
            i <= blocks@.len(),
            models == eval::ref_models(blocks@),
            resolved == (exists|k: int|
                0 <= k < i && (#[trigger] models[k]).block.reference == reference@
                    && models[k].is_resolved()),
        decreases blocks@.len() - i,
    {
        assert(models[i as int] == blocks@[i as int]@);
        if text::same(blocks[i].block.reference.as_str(), reference) && blocks[i].resolved() {
            resolved = true;
        }
        i = i + 1;
    }
    FixOutcome::Applied { file, steps, resolved }
}

// ---------------------------------------------------------------------------
// Laws
// ---------------------------------------------------------------------------

/// How many blocks are still to resolve
pub open spec fn count_open(blocks: Seq<BlockEvalModel>) -> nat
    decreases blocks.len(),
{
    if blocks.len() == 0 {
        0
    } else if blocks.last().is_done() {
        count_open(blocks.drop_last())
    } else {
        count_open(blocks.drop_last()) + 1
    }
}

/// Resolved, ignored and still to resolve add up to all the blocks there are
pub proof fn law_counts_add_up(blocks: Seq<BlockEvalModel>)
    requires
        forall|i: int|
            0 <= i < blocks.len() ==> !((#[trigger] blocks[i]).is_resolved()
                && blocks[i].ignored_as is Some),
    ensures
        count_resolved(blocks) + count_ignored(blocks) + count_open(blocks) == blocks.len(),
    decreases blocks.len(),
{
    if blocks.len() > 0 {
        let head = blocks.drop_last();
        assert forall|i: int| 0 <= i < head.len() implies !((#[trigger] head[i]).is_resolved()
            && head[i].ignored_as is Some) by {
            assert(head[i] == blocks[i]);
        }
        law_counts_add_up(head);
        assert(blocks[blocks.len() - 1] == blocks.last());
    }
}

proof fn lemma_all_unresolved_concat(first: Seq<BlockEvalModel>, second: Seq<BlockEvalModel>)
    ensures
        all_unresolved(first + second) == all_unresolved(first) + all_unresolved(second),
    decreases second.len(),
{
    if second.len() == 0 {
        assert(first + second =~= first);
        assert(all_unresolved(first) + all_unresolved(second) =~= all_unresolved(first));
    } else {
        assert((first + second).drop_last() =~= first + second.drop_last());
        lemma_all_unresolved_concat(first, second.drop_last());
        assert(all_unresolved(first + second) =~= all_unresolved(first) + all_unresolved(second));
    }
}

/// All the blocks listed as still to resolve
pub open spec fn listed(unresolved: Seq<UnresolvedInModel>) -> Seq<UnresolvedModel>
    decreases unresolved.len(),
{
    if unresolved.len() == 0 {
        Seq::empty()
    } else {
        listed(unresolved.drop_last()) + unresolved.last().blocks
    }
}

/// The report lists every block still to resolve, in order, and no other
pub proof fn law_open_blocks_are_listed(assemblies: Seq<AssemblyEvalModel>)
    ensures
        listed(unresolved_by_assembly(assemblies)) == all_unresolved(eval::all_blocks(assemblies)),
    decreases assemblies.len(),
{
    if assemblies.len() > 0 {
        let rest = assemblies.drop_last();
        let last = assemblies.last();
        law_open_blocks_are_listed(rest);
        lemma_all_unresolved_concat(eval::all_blocks(rest), last.blocks);
        let head = unresolved_by_assembly(rest);
        if let Some(unresolved) = unresolved_in_spec(last) {
            assert(head.push(unresolved).drop_last() =~= head);
        } else {
            assert(listed(head) + all_unresolved(last.blocks) =~= listed(head));
        }
    }
}

/// A summary of blocks that aren't both resolved and ignored counts as open the blocks
/// still to resolve, so all is well exactly when each is resolved or ignored, no marked
/// code is unmatched and every marker can be read
pub proof fn law_summary(
    docs: Seq<char>,
    evaluation: EvaluationModel,
    unused: Seq<UnusedDraftModel>,
)
    requires
        forall|i: int|
            0 <= i < eval::all_blocks(evaluation.assemblies).len() ==> !((
            #[trigger] eval::all_blocks(evaluation.assemblies)[i]).is_resolved()
                && eval::all_blocks(evaluation.assemblies)[i].ignored_as is Some),
    ensures
        ({
            let summary = summary_spec(docs, evaluation, unused);
            let blocks = eval::all_blocks(evaluation.assemblies);
            &&& open_spec(summary) == count_open(blocks)
            &&& summary_ok(summary) == (evaluation.scan.problems.len() == 0 && unused.len() == 0
                && forall|i: int| 0 <= i < blocks.len() ==> (#[trigger] blocks[i]).is_done())
        }),
{
    let blocks = eval::all_blocks(evaluation.assemblies);
    law_counts_add_up(blocks);
    lemma_none_open(blocks);
}

proof fn lemma_none_shown(blocks: Seq<BlockEvalModel>)
    requires
        forall|i: int| 0 <= i < blocks.len() ==> (#[trigger] blocks[i]).is_done(),
    ensures
        shown_ids(blocks).len() == 0,
    decreases blocks.len(),
{
    if blocks.len() > 0 {
        let head = blocks.drop_last();
        assert(blocks.last() == blocks[blocks.len() - 1]);
        assert forall|i: int| 0 <= i < head.len() implies (#[trigger] head[i]).is_done() by {
            assert(blocks[i].is_done());
        }
        lemma_none_shown(head);
    }
}

proof fn lemma_unused_count(
    evaluation: EvaluationModel,
    shown: Seq<Seq<char>>,
    unused: Seq<usize>,
)
    requires
        shown.len() == 0,
    ensures
        all_unused(evaluation, shown, unused) matches Ok(list) ==> list.len() == unused.len(),
    decreases unused.len(),
{
    if unused.len() > 0 {
        lemma_unused_count(evaluation, shown, unused.drop_last());
    }
}

/// With the unmatched marked code described, all is well exactly when each block is
/// resolved or ignored, each piece of marked code matches a block and every marker can
/// be read: code left out of the list because some block shows it counts too, as that
/// block is still to resolve
pub proof fn law_all_is_well(
    docs: Seq<char>,
    evaluation: EvaluationModel,
    unused: Seq<UnusedDraftModel>,
)
    requires
        forall|i: int|
            0 <= i < eval::all_blocks(evaluation.assemblies).len() ==> !((
            #[trigger] eval::all_blocks(evaluation.assemblies)[i]).is_resolved()
                && eval::all_blocks(evaluation.assemblies)[i].ignored_as is Some),
        unused_drafts_spec(evaluation) matches Ok(drafts) && drafts.len() == unused.len(),
    ensures
        ({
            let blocks = eval::all_blocks(evaluation.assemblies);
            summary_ok(summary_spec(docs, evaluation, unused)) == (evaluation.scan.problems.len()
                == 0 && evaluation.unused.len() == 0 && forall|i: int|
                0 <= i < blocks.len() ==> (#[trigger] blocks[i]).is_done())
        }),
{
    let blocks = eval::all_blocks(evaluation.assemblies);
    law_summary(docs, evaluation, unused);
    if forall|i: int| 0 <= i < blocks.len() ==> (#[trigger] blocks[i]).is_done() {
        lemma_none_shown(blocks);
        lemma_unused_count(evaluation, shown_ids(blocks), evaluation.unused);
    }
}

proof fn lemma_none_open(blocks: Seq<BlockEvalModel>)
    ensures
        count_open(blocks) == 0 <==> forall|i: int|
            0 <= i < blocks.len() ==> (#[trigger] blocks[i]).is_done(),
    decreases blocks.len(),
{
    if blocks.len() > 0 {
        let head = blocks.drop_last();
        lemma_none_open(head);
        assert(blocks[blocks.len() - 1] == blocks.last());
        assert forall|i: int| 0 <= i < head.len() implies head[i] == #[trigger] blocks[i] by {}
        if forall|i: int| 0 <= i < blocks.len() ==> (#[trigger] blocks[i]).is_done() {
            assert forall|i: int| 0 <= i < head.len() implies (#[trigger] head[i]).is_done() by {
                assert(blocks[i].is_done());
            }
        }
    }
}

/// Checking a block comes out well exactly when the block is resolved or ignored
pub proof fn law_block_outcome(marked: Seq<CodeModel>, found: BlockEvalModel)
    ensures
        block_outcome(marked, found) matches Ok(outcome) ==> outcome_ok(outcome)
            == found.is_done(),
{
}

/// The change listed under a block still to resolve is the one that fixing it makes, and
/// none is listed exactly when there's no fix
pub proof fn law_the_listed_change_is_made(evaluation: EvaluationModel, reference: Seq<char>)
    requires
        eval::with_reference(eval::all_blocks(evaluation.assemblies), reference, 0) matches Some(
            found,
        ) && !found.is_done() && candidates::is_ranking(found.candidates),
    ensures
        ({
            let found = eval::with_reference(
                eval::all_blocks(evaluation.assemblies),
                reference,
                0,
            )->0;
            match unresolved_spec(found).fix {
                Some(listed) => fix_spec(evaluation, reference) matches Ok(choice) && (
                choice matches ChoiceModel::Change { steps, .. } && steps == listed),
                None => fix_spec(evaluation, reference) == Ok::<_, Seq<char>>(ChoiceModel::NoFix),
            }
        }),
{
    let found = eval::with_reference(eval::all_blocks(evaluation.assemblies), reference, 0)->0;
    if found.candidates.len() == 0 || found.candidates[0].plan is None {
        lemma_no_plan(found.candidates, 0);
    }
}

proof fn lemma_no_plan(list: Seq<CandidateInfoModel>, i: int)
    requires
        0 <= i,
        candidates::is_ranking(list),
        list.len() > 0 ==> list[0].plan is None,
    ensures
        first_plan(list, i) == ChoiceModel::NoFix,
    decreases list.len() - i,
{
    if i < list.len() {
        assert(list[i].plan is None) by {
            if i > 0 {
                assert(!candidates::is_better(list[i], list[0]));
            }
        }
        lemma_no_plan(list, i + 1);
    }
}

} // verus!
