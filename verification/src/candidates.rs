//! The repo code most like the blocks still to resolve.

use crate::apply;
use crate::docs;
use crate::docs::{Block, BlockModel};
use crate::eval;
use crate::eval::{AssemblyEval, AssemblyEvalModel, BlockEval, BlockEvalModel, Evaluation};
use crate::lightbulb;
use crate::lightbulb::{Candidate, CandidateModel, FixModel, LightbulbFix, LightbulbPlan, PlanModel};
use crate::lines;
use crate::matching;
use crate::options;
use crate::options::{MarkerOption, OptionModel};
use crate::repo;
use crate::repo::{CodeModel, FileModel, MarkedCode, RepoFile, RepoModel, Scan};
use crate::similarity;
use crate::similarity::{Comparison, ComparisonModel};
use crate::text;
use vstd::prelude::*;

verus! {

/// Some code that a block still to resolve may come from
#[derive(Debug)]
pub struct CandidateInfo {
    pub id: String,
    /// section, file (marked), lines (would become a section), unmarked-file
    pub kind: &'static str,
    pub file: String,
    pub name: Option<String>,
    pub lines: Option<(usize, usize)>,
    pub marker_lines: Vec<usize>,
    pub options: Vec<MarkerOption>,
    pub doc_options: Vec<MarkerOption>,
    pub placeholders: Vec<String>,
    pub plan: Option<LightbulbPlan>,
    /// The bits of a number from 0 to 1, which order as such numbers do
    pub similarity: u64,
    /// What the block is compared with: the code (placeholders filled in where
    /// possible), the would-be section, or the whole unmarked file
    pub content: String,
    /// The doc side it's compared with (doc options applied)
    pub doc: String,
    pub file_text: String,
}

#[verifier::ext_equal]
pub struct CandidateInfoModel {
    pub id: Seq<char>,
    pub kind: Seq<char>,
    pub file: Seq<char>,
    pub name: Option<Seq<char>>,
    pub lines: Option<(usize, usize)>,
    pub marker_lines: Seq<usize>,
    pub options: Seq<OptionModel>,
    pub doc_options: Seq<OptionModel>,
    pub placeholders: Seq<Seq<char>>,
    pub plan: Option<PlanModel>,
    pub similarity: u64,
    pub content: Seq<char>,
    pub doc: Seq<char>,
    pub file_text: Seq<char>,
}

/// A plan, if there is one
pub open spec fn plan_view(plan: Option<LightbulbPlan>) -> Option<PlanModel> {
    match plan {
        Some(plan) => Some(plan@),
        None => None,
    }
}

impl View for CandidateInfo {
    type V = CandidateInfoModel;

    open spec fn view(&self) -> CandidateInfoModel {
        CandidateInfoModel {
            id: self.id@,
            kind: self.kind@,
            file: self.file@,
            name: text::option_view(self.name),
            lines: self.lines,
            marker_lines: self.marker_lines@,
            options: options::models(self.options@),
            doc_options: options::models(self.doc_options@),
            placeholders: text::views(self.placeholders@),
            plan: plan_view(self.plan),
            similarity: self.similarity,
            content: self.content@,
            doc: self.doc@,
            file_text: self.file_text@,
        }
    }
}

pub open spec fn info_models(list: Seq<CandidateInfo>) -> Seq<CandidateInfoModel> {
    Seq::new(list.len(), |i: int| list[i]@)
}

/// A copy of some line numbers
pub fn clone_numbers(list: &Vec<usize>) -> (copy: Vec<usize>)
    ensures
        copy@ == list@,
{
    let copy = list.clone();
    assert(copy@ =~= list@);
    copy
}

impl Clone for CandidateInfo {
    fn clone(&self) -> (copy: Self)
        ensures
            copy@ == self@,
    {
        CandidateInfo {
            id: self.id.clone(),
            kind: self.kind,
            file: self.file.clone(),
            name: docs::clone_text(&self.name),
            lines: self.lines,
            marker_lines: clone_numbers(&self.marker_lines),
            options: options::clone_options(&self.options),
            doc_options: options::clone_options(&self.doc_options),
            placeholders: text::clone_texts(&self.placeholders),
            plan: match &self.plan {
                Some(plan) => Some(plan.clone()),
                None => None,
            },
            similarity: self.similarity,
            content: self.content.clone(),
            doc: self.doc.clone(),
            file_text: self.file_text.clone(),
        }
    }
}

/// A copy of some candidates
pub fn clone_infos(list: &Vec<CandidateInfo>) -> (copy: Vec<CandidateInfo>)
    ensures
        info_models(copy@) == info_models(list@),
{
    let mut copy: Vec<CandidateInfo> = Vec::new();
    let mut i: usize = 0;
    while i < list.len()
        invariant
            i <= list@.len(),
            copy@.len() == i,
            forall|k: int| 0 <= k < i ==> (#[trigger] copy@[k])@ == list@[k]@,
        decreases list@.len() - i,
    {
        copy.push(list[i].clone());
        i = i + 1;
    }
    assert(info_models(copy@) =~= info_models(list@));
    copy
}

/// Ignored content that a block still to resolve may have had
#[derive(Debug)]
pub struct Formerly {
    pub reason: String,
    pub content: String,
    /// The bits of a number from 0 to 1, which order as such numbers do
    pub similarity: u64,
}

#[verifier::ext_equal]
pub struct FormerlyModel {
    pub reason: Seq<char>,
    pub content: Seq<char>,
    pub similarity: u64,
}

impl View for Formerly {
    type V = FormerlyModel;

    open spec fn view(&self) -> FormerlyModel {
        FormerlyModel {
            reason: self.reason@,
            content: self.content@,
            similarity: self.similarity,
        }
    }
}

pub open spec fn formerly_models(list: Seq<Formerly>) -> Seq<FormerlyModel> {
    Seq::new(list.len(), |i: int| list[i]@)
}

impl Clone for Formerly {
    fn clone(&self) -> (copy: Self)
        ensures
            copy@ == self@,
    {
        Formerly {
            reason: self.reason.clone(),
            content: self.content.clone(),
            similarity: self.similarity,
        }
    }
}

/// A copy of some ignored contents
pub fn clone_formers(list: &Vec<Formerly>) -> (copy: Vec<Formerly>)
    ensures
        formerly_models(copy@) == formerly_models(list@),
{
    let mut copy: Vec<Formerly> = Vec::new();
    let mut i: usize = 0;
    while i < list.len()
        invariant
            i <= list@.len(),
            copy@.len() == i,
            forall|k: int| 0 <= k < i ==> (#[trigger] copy@[k])@ == list@[k]@,
        decreases list@.len() - i,
    {
        copy.push(list[i].clone());
        i = i + 1;
    }
    assert(formerly_models(copy@) =~= formerly_models(list@));
    copy
}

// ---------------------------------------------------------------------------
// The code there is
// ---------------------------------------------------------------------------

/// Some code that blocks are compared with
pub struct CandidatePoolEntry<'a> {
    pub id: String,
    pub candidate: Candidate<'a>,
    pub tokens: Vec<String>,
}

#[verifier::ext_equal]
pub struct PoolModel {
    pub id: Seq<char>,
    pub candidate: CandidateModel,
    pub section: Option<Seq<char>>,
    pub tokens: Seq<Seq<char>>,
}

/// A text, if there is one
pub open spec fn str_view(text: Option<&str>) -> Option<Seq<char>> {
    match text {
        Some(text) => Some(text@),
        None => None,
    }
}

impl<'a> View for CandidatePoolEntry<'a> {
    type V = PoolModel;

    open spec fn view(&self) -> PoolModel {
        PoolModel {
            id: self.id@,
            candidate: self.candidate@,
            section: str_view(self.candidate.section),
            tokens: text::views(self.tokens@),
        }
    }
}

impl<'a> CandidatePoolEntry<'a> {
    /// The matcher of marked code can be used
    pub open spec fn wf(self) -> bool {
        self.candidate.marked_code matches Some(code) ==> code.matcher.wf()
    }
}

pub open spec fn pool_models<'a>(list: Seq<CandidatePoolEntry<'a>>) -> Seq<PoolModel> {
    Seq::new(list.len(), |i: int| list[i]@)
}

pub open spec fn pool_wf<'a>(list: Seq<CandidatePoolEntry<'a>>) -> bool {
    forall|i: int| 0 <= i < list.len() ==> (#[trigger] list[i]).wf()
}

/// The last file with a path
pub open spec fn file_at(files: Seq<FileModel>, path: Seq<char>) -> Option<FileModel>
    decreases files.len(),
{
    if files.len() == 0 {
        None
    } else if files.last().file == path {
        Some(files.last())
    } else {
        file_at(files.drop_last(), path)
    }
}

fn find_file<'a>(files: &'a Vec<RepoFile>, path: &str) -> (found: Option<&'a RepoFile>)
    ensures
        match found {
            Some(file) => file_at(repo::file_models(files@), path@) == Some(file@),
            None => file_at(repo::file_models(files@), path@) is None,
        },
{
    let ghost models = repo::file_models(files@);
    let mut i: usize = files.len();
    assert(models.take(i as int) =~= models);
    while i > 0
        invariant
            i <= files@.len(),
            models == repo::file_models(files@),
            file_at(models, path@) == file_at(models.take(i as int), path@),
        decreases i,
    {
        proof {
            assert(models.take(i as int).last() == files@[i - 1]@);
            assert(models.take(i as int).drop_last() =~= models.take(i - 1));
        }
        i = i - 1;
        if text::same(files[i].file.as_str(), path) {
            return Some(&files[i]);
        }
    }
    None
}

/// Marked code in a file, as code that blocks are compared with
pub open spec fn marked_entry(code: CodeModel, file: FileModel) -> PoolModel {
    PoolModel {
        id: code.id,
        candidate: CandidateModel {
            file: code.file,
            marked_code: Some(code),
            file_text: file.text,
            markers: file.markers,
        },
        section: code.section,
        tokens: similarity::tokens_of(code.content),
    }
}

/// An unmarked file, as code that blocks are compared with
pub open spec fn unmarked_entry(file: FileModel) -> PoolModel {
    PoolModel {
        id: file.file,
        candidate: CandidateModel {
            file: file.file,
            marked_code: None,
            file_text: file.text,
            markers: file.markers,
        },
        section: None,
        tokens: similarity::tokens_of(file.text),
    }
}

/// The marked code that is in a scanned file
pub open spec fn marked_entries(marked: Seq<CodeModel>, files: Seq<FileModel>) -> Seq<PoolModel>
    decreases marked.len(),
{
    if marked.len() == 0 {
        Seq::empty()
    } else {
        let head = marked_entries(marked.drop_last(), files);
        match file_at(files, marked.last().file) {
            Some(file) => head.push(marked_entry(marked.last(), file)),
            None => head,
        }
    }
}

/// The files without a file marker
pub open spec fn unmarked_entries(files: Seq<FileModel>) -> Seq<PoolModel>
    decreases files.len(),
{
    if files.len() == 0 {
        Seq::empty()
    } else {
        let head = unmarked_entries(files.drop_last());
        if files.last().markers.file is None {
            head.push(unmarked_entry(files.last()))
        } else {
            head
        }
    }
}

/// All marked code (in a scanned file), then every unmarked file
pub open spec fn pool_spec(scan: RepoModel) -> Seq<PoolModel> {
    marked_entries(scan.marked, scan.files) + unmarked_entries(scan.files)
}

fn marked_pool_entry<'a>(code: &'a MarkedCode, file: &'a RepoFile) -> (entry: CandidatePoolEntry<
    'a,
>)
    requires
        code.matcher.wf(),
    ensures
        entry@ == marked_entry(code@, file@),
        entry.wf(),
{
    let section = match &code.section {
        Some(section) => Some(section.as_str()),
        None => None,
    };
    CandidatePoolEntry {
        id: code.id.clone(),
        candidate: Candidate {
            file: code.file.as_str(),
            section,
            marked_code: Some(code),
            file_text: file.text.as_str(),
            markers: &file.markers,
        },
        tokens: similarity::tokens(code.content.as_str()),
    }
}

fn unmarked_pool_entry<'a>(file: &'a RepoFile) -> (entry: CandidatePoolEntry<'a>)
    ensures
        entry@ == unmarked_entry(file@),
        entry.wf(),
{
    CandidatePoolEntry {
        id: file.file.clone(),
        candidate: Candidate {
            file: file.file.as_str(),
            section: None,
            marked_code: None,
            file_text: file.text.as_str(),
            markers: &file.markers,
        },
        tokens: similarity::tokens(file.text.as_str()),
    }
}

/// All marked code (in a scanned file), then every unmarked file
pub fn candidate_pool<'a>(scan: &'a Scan) -> (pool: Vec<CandidatePoolEntry<'a>>)
    requires
        scan.wf(),
    ensures
        pool_models(pool@) == pool_spec(scan@),
        pool_wf(pool@),
{
    let ghost marked = scan@.marked;
    let ghost files = scan@.files;
    let mut pool: Vec<CandidatePoolEntry<'a>> = Vec::new();
    let mut i: usize = 0;
    assert(pool_models(pool@) =~= marked_entries(marked.take(0), files));
    while i < scan.marked.len()
        invariant
            i <= scan.marked@.len(),
            scan.wf(),
            marked == scan@.marked,
            files == scan@.files,
            pool_models(pool@) == marked_entries(marked.take(i as int), files),
            pool_wf(pool@),
        decreases scan.marked@.len() - i,
    {
        let ghost before = pool_models(pool@);
        let code = &scan.marked[i];
        proof {
            assert(marked.take(i + 1).drop_last() =~= marked.take(i as int));
            assert(marked.take(i + 1).last() == scan.marked@[i as int]@);
        }
        if let Some(file) = find_file(&scan.files, code.file.as_str()) {
            let entry = marked_pool_entry(code, file);
            pool.push(entry);
            assert(pool_models(pool@) =~= before.push(entry@));
        }
        i = i + 1;
    }
    assert(marked.take(i as int) =~= marked);
    let ghost first = pool_models(pool@);
    let mut k: usize = 0;
    assert(first + unmarked_entries(files.take(0)) =~= first);
    while k < scan.files.len()
        invariant
            k <= scan.files@.len(),
            files == scan@.files,
            pool_models(pool@) == first + unmarked_entries(files.take(k as int)),
            pool_wf(pool@),
        decreases scan.files@.len() - k,
    {
        let ghost before = pool_models(pool@);
        let file = &scan.files[k];
        proof {
            assert(files.take(k + 1).drop_last() =~= files.take(k as int));
            assert(files.take(k + 1).last() == scan.files@[k as int]@);
        }
        if file.markers.file.is_none() {
            let entry = unmarked_pool_entry(file);
            pool.push(entry);
            proof {
                assert(pool_models(pool@) =~= before.push(entry@));
                let head = unmarked_entries(files.take(k as int));
                assert((first + head).push(entry@) =~= first + head.push(entry@));
            }
        }
        k = k + 1;
    }
    assert(files.take(k as int) =~= files);
    pool
}

// ---------------------------------------------------------------------------
// A candidate for a block
// ---------------------------------------------------------------------------

/// A block's content without its shell prompts, when it has any
pub open spec fn unprompted_spec(content: Seq<char>) -> Seq<char> {
    if lightbulb::has_prompts(content) {
        match eval::doc_side_spec(content, seq![lightbulb::strip_prompt_spec()]) {
            Some(side) => side,
            None => content,
        }
    } else {
        content
    }
}

/// The block's content without its shell prompts, when it has any
pub fn unprompted_content(block: &Block) -> (content: String)
    ensures
        content@ == unprompted_spec(block.content@),
{
    if lightbulb::shows_prompts(block.content.as_str()) {
        let mut prompt: Vec<MarkerOption> = Vec::new();
        prompt.push(lightbulb::strip_prompt_option());
        assert(options::models(prompt@) =~= seq![lightbulb::strip_prompt_spec()]);
        match eval::doc_side(block, &prompt) {
            Some(side) => side,
            None => block.content.clone(),
        }
    } else {
        block.content.clone()
    }
}

/// Options that a plan would add, if there is one
pub open spec fn planned_options(plan: Option<PlanModel>) -> Seq<OptionModel> {
    match plan {
        Some(plan) => plan.doc_options,
        None => Seq::empty(),
    }
}

/// The code's own doc options, or else the ones the plan would add
pub open spec fn doc_options_spec(code: Option<CodeModel>, plan: Option<PlanModel>) -> Seq<
    OptionModel,
> {
    match code {
        Some(code) => if code.doc_options.len() > 0 {
            code.doc_options
        } else {
            planned_options(plan)
        },
        None => planned_options(plan),
    }
}

/// The code, if there is any
pub open spec fn code_view(code: Option<&MarkedCode>) -> Option<CodeModel> {
    match code {
        Some(code) => Some(code@),
        None => None,
    }
}

/// The code's own doc options, or else the ones the plan would add
pub fn candidate_doc_options(code: Option<&MarkedCode>, plan: &Option<LightbulbPlan>) -> (
    doc_options: Vec<MarkerOption>)
    ensures
        options::models(doc_options@) == doc_options_spec(code_view(code), plan_view(*plan)),
{
    if let Some(code) = code {
        if code.doc_options.len() > 0 {
            return options::clone_options(&code.doc_options);
        }
    }
    match plan {
        Some(plan) => options::clone_options(&plan.doc_options),
        None => {
            let none: Vec<MarkerOption> = Vec::new();
            assert(options::models(none@) =~= Seq::empty());
            none
        },
    }
}

/// The lines that the first fix to mark a section, from the `i`th on, would mark:
/// (first line, count)
pub open spec fn section_to_mark_spec(fixes: Seq<FixModel>, i: int) -> Option<(nat, nat)>
    decreases fixes.len() - i,
{
    if !(0 <= i < fixes.len()) {
        None
    } else {
        match fixes[i] {
            FixModel::MarkSection { first_line, line_count, .. } => Some((first_line, line_count)),
            _ => section_to_mark_spec(fixes, i + 1),
        }
    }
}

/// The lines the plan would mark as a section: (first line, count)
pub fn section_to_mark(plan: &LightbulbPlan) -> (found: Option<(usize, usize)>)
    ensures
        section_to_mark_spec(plan@.fixes, 0) == match found {
            Some((first_line, line_count)) => Some((first_line as nat, line_count as nat)),
            None => None::<(nat, nat)>,
        },
{
    let ghost fixes = plan@.fixes;
    let mut i: usize = 0;
    while i < plan.fixes.len()
        invariant
            i <= plan.fixes@.len(),
            fixes == plan@.fixes,
            section_to_mark_spec(fixes, 0) == section_to_mark_spec(fixes, i as int),
        decreases plan.fixes@.len() - i,
    {
        assert(fixes[i as int] == plan.fixes@[i as int]@);
        if let LightbulbFix::MarkSection { first_line, line_count, .. } = &plan.fixes[i] {
            return Some((*first_line, *line_count));
        }
        i = i + 1;
    }
    None
}

/// The smaller of two numbers
pub open spec fn at_most(number: int, limit: int) -> int {
    if number < limit {
        number
    } else {
        limit
    }
}

/// Some lines of a text: `count` from the `first`th on, as far as there are so many
pub open spec fn section_text(file_text: Seq<char>, first: nat, count: nat) -> Seq<char> {
    let list = lines::split(file_text, '\n');
    let from = at_most(first - 1, list.len() as int);
    let to = at_most(from + count, list.len() as int);
    lines::join(list.subrange(from, to), "\n"@) + "\n"@
}

/// What a block is compared with
pub open spec fn content_spec(
    candidate: CandidateModel,
    to_mark: Option<(nat, nat)>,
    side: Seq<char>,
) -> Result<Seq<char>, Seq<char>> {
    match to_mark {
        Some((first, count)) => Ok(section_text(candidate.file_text, first, count)),
        None => match candidate.marked_code {
            Some(code) => lightbulb::in_context(
                matching::fill_spec(code.matcher, side),
                eval::filling(code.id),
            ),
            None => Ok(candidate.file_text),
        },
    }
}

/// Line numbers as numbers
pub open spec fn mark_view(to_mark: Option<(usize, usize)>) -> Option<(nat, nat)> {
    match to_mark {
        Some((first, count)) => Some((first as nat, count as nat)),
        None => None,
    }
}

/// What the block is compared with: the would-be section, the code with its
/// placeholders filled in, or the whole unmarked file
pub fn candidate_content(
    candidate: &Candidate<'_>,
    to_mark: Option<(usize, usize)>,
    block_side: &str,
) -> (content: Result<String, String>)
    requires
        candidate.marked_code matches Some(code) ==> code.matcher.wf(),
        to_mark matches Some(section) ==> section.0 >= 1,
    ensures
        match content {
            Ok(content) => content_spec(candidate@, mark_view(to_mark), block_side@) == Ok::<
                _,
                Seq<char>,
            >(content@),
            Err(error) => content_spec(candidate@, mark_view(to_mark), block_side@) == Err::<
                Seq<char>,
                _,
            >(error@),
        },
{
    if let Some((first_line, line_count)) = to_mark {
        let list = lines::split_text(candidate.file_text, '\n');
        let from: usize = if first_line - 1 < list.len() {
            first_line - 1
        } else {
            list.len()
        };
        let to: usize = if line_count < list.len() - from {
            from + line_count
        } else {
            list.len()
        };
        let mut content = docs::join_range(&list, from, to);
        content.append("\n");
        return Ok(content);
    }
    match candidate.marked_code {
        Some(code) => eval::fill_code(code, block_side),
        None => Ok(candidate.file_text.to_owned()),
    }
}

/// What kind of code a candidate is
pub open spec fn kind_spec(to_mark: bool, code: Option<CodeModel>) -> Seq<char> {
    if to_mark {
        "lines"@
    } else {
        match code {
            Some(code) => if code.section is Some {
                "section"@
            } else {
                "file"@
            },
            None => "unmarked-file"@,
        }
    }
}

/// What kind of code a candidate is: lines to mark, a marked section or file, or an
/// unmarked file
pub fn candidate_kind(to_mark: Option<(usize, usize)>, code: Option<&MarkedCode>) -> (kind:
    &'static str)
    ensures
        kind@ == kind_spec(to_mark is Some, code_view(code)),
{
    if to_mark.is_some() {
        return "lines";
    }
    match code {
        Some(code) => if code.section.is_some() {
            "section"
        } else {
            "file"
        },
        None => "unmarked-file",
    }
}

/// Whether every section that some fixes would mark is among the lines of a text
pub open spec fn sections_fit(fixes: Seq<FixModel>, file_text: Seq<char>) -> bool {
    forall|i: int|
        0 <= i < fixes.len() ==> ((#[trigger] fixes[i]) matches FixModel::MarkSection {
            first_line,
            line_count,
            ..
        } ==> first_line >= 1 && line_count >= 1 && first_line + line_count - 1 <= lines::split(
            file_text,
            '\n',
        ).len())
}

proof fn lemma_against_fits(module: Seq<char>, doc: Seq<char>, candidate: CandidateModel)
    ensures
        lightbulb::plan_against_spec(module, doc, candidate) matches Ok(Some(fixes))
            ==> sections_fit(fixes, candidate.file_text),
{
    let list = lines::split(candidate.file_text, '\n');
    let doc_lines = lightbulb::doc_lines_of(doc);
    lines::lemma_split(apply::without_newline(doc), '\n');
    let indexes = lightbulb::compared(list, !lightbulb::any_comment(doc_lines));
    lightbulb::lemma_compared(list, !lightbulb::any_comment(doc_lines));
    lightbulb::lemma_first_window(list, indexes, doc_lines, 0);
}

/// A plan marks only lines that the candidate's file has
proof fn lemma_plan_fits(module: Seq<char>, content: Seq<char>, candidate: CandidateModel)
    ensures
        lightbulb::plan_for_spec(module, content, candidate) matches Ok(Some(plan))
            ==> sections_fit(plan.fixes, candidate.file_text),
{
    lemma_against_fits(module, content, candidate);
    if let Ok(doc) = apply::apply_options_spec(
        content,
        lightbulb::declared_options(candidate),
    ) {
        lemma_against_fits(module, doc, candidate);
    }
    if let Ok(doc) = apply::apply_options_spec(
        content,
        seq![lightbulb::strip_prompt_spec()],
    ) {
        lemma_against_fits(module, doc, candidate);
    }
}

proof fn lemma_section_fits(fixes: Seq<FixModel>, file_text: Seq<char>, i: int)
    requires
        0 <= i,
        sections_fit(fixes, file_text),
    ensures
        section_to_mark_spec(fixes, i) matches Some(section) ==> section.0 >= 1 && section.1 >= 1
            && section.0 + section.1 - 1 <= lines::split(file_text, '\n').len(),
    decreases fixes.len() - i,
{
    if i < fixes.len() {
        lemma_section_fits(fixes, file_text, i + 1);
    }
}

// ---------------------------------------------------------------------------
// Drafts: candidates whose similarity is still to be worked out
// ---------------------------------------------------------------------------

/// The least similarity of code to a block it's shown for: three tenths
pub const MIN_SIMILARITY: u64 = 0x3FD3_3333_3333_3333;

/// The least similarity of ignored content to a block that probably had it: a half
pub const MIN_FORMER_SIMILARITY: u64 = 0x3FE0_0000_0000_0000;

/// The similarity of code that a plan makes match: one
pub const FULL_SIMILARITY: u64 = 0x3FF0_0000_0000_0000;

pub const MAX_CANDIDATES: usize = 5;

/// A candidate, with what its similarity is worked out from unless a plan makes it
/// match
#[derive(Debug)]
pub struct CandidateDraft {
    pub info: CandidateInfo,
    pub comparison: Option<Comparison>,
}

#[verifier::ext_equal]
pub struct DraftModel {
    pub info: CandidateInfoModel,
    pub comparison: Option<ComparisonModel>,
}

impl View for CandidateDraft {
    type V = DraftModel;

    open spec fn view(&self) -> DraftModel {
        DraftModel {
            info: self.info@,
            comparison: match self.comparison {
                Some(comparison) => Some(comparison@),
                None => None,
            },
        }
    }
}

pub open spec fn draft_models(list: Seq<CandidateDraft>) -> Seq<DraftModel> {
    Seq::new(list.len(), |i: int| list[i]@)
}

/// The lines of a candidate: the ones to mark, or else those of marked code
pub open spec fn lines_spec(to_mark: Option<(nat, nat)>, code: Option<CodeModel>) -> Option<
    (usize, usize),
> {
    match to_mark {
        Some((first, count)) => Some((first as usize, (first + count - 1) as usize)),
        None => match code {
            Some(code) => code.lines,
            None => None,
        },
    }
}

/// The section that a plan would mark
pub open spec fn planned_section(plan: Option<PlanModel>) -> Option<(nat, nat)> {
    match plan {
        Some(plan) => section_to_mark_spec(plan.fixes, 0),
        None => None,
    }
}

/// A block with doc options applied, or as it is when they don't fit it
pub open spec fn side_or_content(content: Seq<char>, doc_options: Seq<OptionModel>) -> Seq<char> {
    match eval::doc_side_spec(content, doc_options) {
        Some(side) => side,
        None => content,
    }
}

/// A candidate for a block, given the plan that would make it match and what the block
/// is compared with
pub open spec fn draft_with(
    block: BlockModel,
    entry: PoolModel,
    plan: Option<PlanModel>,
    content: Seq<char>,
    unprompted: Seq<char>,
    block_tokens: Seq<Seq<char>>,
) -> DraftModel {
    let code = entry.candidate.marked_code;
    let doc_options = doc_options_spec(code, plan);
    let to_mark = planned_section(plan);
    DraftModel {
        info: CandidateInfoModel {
            id: entry.id,
            kind: kind_spec(to_mark is Some, code),
            file: entry.candidate.file,
            name: entry.section,
            lines: lines_spec(to_mark, code),
            marker_lines: match code {
                Some(code) => code.marker_lines,
                None => Seq::empty(),
            },
            options: match code {
                Some(code) => code.options,
                None => Seq::empty(),
            },
            doc_options,
            placeholders: match code {
                Some(code) => code.placeholders,
                None => Seq::empty(),
            },
            plan,
            similarity: if plan is Some {
                FULL_SIMILARITY
            } else {
                0
            },
            content,
            doc: side_or_content(block.content, doc_options),
            file_text: entry.candidate.file_text,
        },
        comparison: if plan is Some {
            None
        } else {
            Some(similarity::comparison_spec(block_tokens, entry.tokens, unprompted, content))
        },
    }
}

/// The plan that would make some code match a block
pub open spec fn plan_in(block: BlockModel, entry: PoolModel) -> Result<
    Option<PlanModel>,
    Seq<char>,
> {
    lightbulb::in_context(
        lightbulb::plan_for_spec(block.module, block.content, entry.candidate),
        "looking for a fix in "@ + entry.id,
    )
}

/// A candidate for a block
pub open spec fn draft_spec(
    block: BlockModel,
    entry: PoolModel,
    unprompted: Seq<char>,
    block_tokens: Seq<Seq<char>>,
) -> Result<DraftModel, Seq<char>> {
    match plan_in(block, entry) {
        Err(error) => Err(error),
        Ok(plan) => {
            let doc_options = doc_options_spec(entry.candidate.marked_code, plan);
            match content_spec(
                entry.candidate,
                planned_section(plan),
                side_or_content(block.content, doc_options),
            ) {
                Err(error) => Err(error),
                Ok(content) => Ok(
                    draft_with(block, entry, plan, content, unprompted, block_tokens),
                ),
            }
        },
    }
}

/// The plan that would make some code match the block, and the section it would mark
fn plan_for_entry(block: &Block, entry: &CandidatePoolEntry<'_>) -> (plan: Result<
    (Option<LightbulbPlan>, Option<(usize, usize)>),
    String,
>)
    ensures
        match plan {
            Ok(plan) => {
                &&& plan_in(block@, entry@) == Ok::<_, Seq<char>>(plan_view(plan.0))
                &&& mark_view(plan.1) == planned_section(plan_view(plan.0))
                &&& plan.1 matches Some(section) ==> section.0 >= 1 && section.1 >= 1 && section.0
                    + section.1 - 1 <= usize::MAX
            },
            Err(error) => plan_in(block@, entry@) == Err::<Option<PlanModel>, _>(error@),
        },
{
    match lightbulb::plan_for(block, &entry.candidate) {
        Err(error) => {
            let mut context = "looking for a fix in ".to_owned();
            context.append(entry.id.as_str());
            Err(lightbulb::error_in(context.as_str(), error))
        },
        Ok(None) => Ok((None, None)),
        Ok(Some(plan)) => {
            let to_mark = section_to_mark(&plan);
            let line_count = lines::split_text(entry.candidate.file_text, '\n').len();
            proof {
                lemma_plan_fits(block@.module, block@.content, entry@.candidate);
                lemma_section_fits(plan@.fixes, entry@.candidate.file_text, 0);
                assert(line_count == lines::split(entry@.candidate.file_text, '\n').len());
            }
            Ok((Some(plan), to_mark))
        },
    }
}

/// The marker lines, options and placeholders of code, if there is any
fn code_details(code: Option<&MarkedCode>) -> (details: (
    Vec<usize>,
    Vec<MarkerOption>,
    Vec<String>,
))
    ensures
        details.0@ == (match code {
            Some(code) => code@.marker_lines,
            None => Seq::empty(),
        }),
        options::models(details.1@) == (match code {
            Some(code) => code@.options,
            None => Seq::empty(),
        }),
        text::views(details.2@) == (match code {
            Some(code) => code@.placeholders,
            None => Seq::empty(),
        }),
{
    match code {
        Some(code) => (
            clone_numbers(&code.marker_lines),
            options::clone_options(&code.options),
            text::clone_texts(&code.placeholders),
        ),
        None => {
            let none: Vec<MarkerOption> = Vec::new();
            let no_names: Vec<String> = Vec::new();
            assert(options::models(none@) =~= Seq::empty());
            assert(text::views(no_names@) =~= Seq::empty());
            (Vec::new(), none, no_names)
        },
    }
}

/// A pool entry as a candidate for the block, given the block without its shell prompts
/// and the tokens of that
pub fn score_candidate(
    block: &Block,
    entry: &CandidatePoolEntry<'_>,
    block_without_prompts: &str,
    block_tokens: &Vec<String>,
) -> (draft: Result<CandidateDraft, String>)
    requires
        entry.wf(),
    ensures
        match draft {
            Ok(draft) => draft_spec(
                block@,
                entry@,
                block_without_prompts@,
                text::views(block_tokens@),
            ) == Ok::<_, Seq<char>>(draft@),
            Err(error) => draft_spec(
                block@,
                entry@,
                block_without_prompts@,
                text::views(block_tokens@),
            ) == Err::<DraftModel, _>(error@),
        },
{
    let (plan, to_mark) = match plan_for_entry(block, entry) {
        Ok(plan) => plan,
        Err(error) => return Err(error),
    };
    let code = entry.candidate.marked_code;
    let doc_options = candidate_doc_options(code, &plan);
    let block_side = match eval::doc_side(block, &doc_options) {
        Some(side) => side,
        None => block.content.clone(),
    };
    let content = match candidate_content(&entry.candidate, to_mark, block_side.as_str()) {
        Ok(content) => content,
        Err(error) => return Err(error),
    };
    let comparison = if plan.is_some() {
        None
    } else {
        Some(
            similarity::blended_similarity(
                block_tokens,
                &entry.tokens,
                block_without_prompts,
                content.as_str(),
            ),
        )
    };
    let code_lines = match to_mark {
        Some((first_line, line_count)) => Some((first_line, first_line + (line_count - 1))),
        None => match code {
            Some(code) => code.lines,
            None => None,
        },
    };
    let (marker_lines, code_options, placeholders) = code_details(code);
    let info = CandidateInfo {
        id: entry.id.clone(),
        kind: candidate_kind(to_mark, code),
        file: entry.candidate.file.to_owned(),
        name: match entry.candidate.section {
            Some(section) => Some(section.to_owned()),
            None => None,
        },
        lines: code_lines,
        marker_lines,
        options: code_options,
        doc_options,
        placeholders,
        similarity: if plan.is_some() {
            FULL_SIMILARITY
        } else {
            0
        },
        plan,
        content,
        doc: block_side,
        file_text: entry.candidate.file_text.to_owned(),
    };
    Ok(CandidateDraft { info, comparison })
}

/// The candidates for a block
pub open spec fn drafts_spec(
    block: BlockModel,
    pool: Seq<PoolModel>,
    unprompted: Seq<char>,
    block_tokens: Seq<Seq<char>>,
) -> Result<Seq<DraftModel>, Seq<char>>
    decreases pool.len(),
{
    if pool.len() == 0 {
        Ok(Seq::empty())
    } else {
        match drafts_spec(block, pool.drop_last(), unprompted, block_tokens) {
            Err(error) => Err(error),
            Ok(drafts) => match draft_spec(block, pool.last(), unprompted, block_tokens) {
                Err(error) => Err(error),
                Ok(draft) => Ok(drafts.push(draft)),
            },
        }
    }
}

proof fn lemma_drafts_error(
    block: BlockModel,
    pool: Seq<PoolModel>,
    unprompted: Seq<char>,
    block_tokens: Seq<Seq<char>>,
    i: int,
)
    requires
        0 <= i <= pool.len(),
        drafts_spec(block, pool.take(i), unprompted, block_tokens) is Err,
    ensures
        drafts_spec(block, pool, unprompted, block_tokens) == drafts_spec(
            block,
            pool.take(i),
            unprompted,
            block_tokens,
        ),
    decreases pool.len(),
{
    if i < pool.len() {
        assert(pool.drop_last().take(i) =~= pool.take(i));
        lemma_drafts_error(block, pool.drop_last(), unprompted, block_tokens, i);
    } else {
        assert(pool.take(i) =~= pool);
    }
}

/// The candidates for a block: all the code there is, whatever its similarity
pub open spec fn block_drafts(block: BlockModel, pool: Seq<PoolModel>) -> Result<
    Seq<DraftModel>,
    Seq<char>,
> {
    let unprompted = unprompted_spec(block.content);
    drafts_spec(
        block,
        pool,
        unprompted,
        similarity::tokens_of(unprompted),
    )
}

/// The candidates for a block, their similarity still to be worked out
pub fn draft_candidates(block: &Block, pool: &Vec<CandidatePoolEntry<'_>>) -> (drafts: Result<
    Vec<CandidateDraft>,
    String,
>)
    requires
        pool_wf(pool@),
    ensures
        match drafts {
            Ok(drafts) => block_drafts(block@, pool_models(pool@)) == Ok::<_, Seq<char>>(
                draft_models(drafts@),
            ),
            Err(error) => block_drafts(block@, pool_models(pool@)) == Err::<Seq<DraftModel>, _>(
                error@,
            ),
        },
{
    let unprompted = unprompted_content(block);
    let block_tokens = similarity::tokens(unprompted.as_str());
    let ghost entries = pool_models(pool@);
    let ghost words = text::views(block_tokens@);
    let mut drafts: Vec<CandidateDraft> = Vec::new();
    let mut i: usize = 0;
    assert(draft_models(drafts@) =~= Seq::<DraftModel>::empty());
    while i < pool.len()
        invariant
            i <= pool@.len(),
            pool_wf(pool@),
            entries == pool_models(pool@),
            words == text::views(block_tokens@),
            words == similarity::tokens_of(unprompted@),
            unprompted@ == unprompted_spec(block@.content),
            drafts_spec(block@, entries.take(i as int), unprompted@, words) == Ok::<_, Seq<char>>(
                draft_models(drafts@),
            ),
        decreases pool@.len() - i,
    {
        let ghost before = draft_models(drafts@);
        proof {
            assert(entries.take(i + 1).drop_last() =~= entries.take(i as int));
            assert(entries.take(i + 1).last() == pool@[i as int]@);
        }
        match score_candidate(block, &pool[i], unprompted.as_str(), &block_tokens) {
            Err(error) => {
                proof {
                    lemma_drafts_error(block@, entries, unprompted@, words, i + 1);
                }
                return Err(error);
            },
            Ok(draft) => {
                drafts.push(draft);
                assert(draft_models(drafts@) =~= before.push(draft@));
            },
        }
        i = i + 1;
    }
    assert(entries.take(i as int) =~= entries);
    Ok(drafts)
}

// ---------------------------------------------------------------------------
// Choosing among drafts
// ---------------------------------------------------------------------------

/// Whether a candidate is shown: a plan makes it match, or it's like the block enough
pub open spec fn is_kept(info: CandidateInfoModel) -> bool {
    info.plan is Some || info.similarity >= MIN_SIMILARITY
}

/// Whether one candidate is shown before another: a plan makes it match and not the
/// other, or else it's more like the block
pub open spec fn is_better(first: CandidateInfoModel, second: CandidateInfoModel) -> bool {
    if first.plan is Some == second.plan is Some {
        first.similarity > second.similarity
    } else {
        first.plan is Some
    }
}

/// A ranking, with one more candidate in its place
pub open spec fn insert_ranked(
    ranking: Seq<CandidateInfoModel>,
    added: CandidateInfoModel,
) -> Seq<CandidateInfoModel>
    decreases ranking.len(),
{
    if ranking.len() > 0 && is_better(added, ranking.last()) {
        insert_ranked(ranking.drop_last(), added).push(ranking.last())
    } else {
        ranking.push(added)
    }
}

/// The candidates that are shown, the best ones first and equals in order
pub open spec fn ranked(list: Seq<CandidateInfoModel>) -> Seq<CandidateInfoModel>
    decreases list.len(),
{
    if list.len() == 0 {
        Seq::empty()
    } else if is_kept(list.last()) {
        insert_ranked(ranked(list.drop_last()), list.last())
    } else {
        ranked(list.drop_last())
    }
}

/// The best candidates
pub open spec fn best(list: Seq<CandidateInfoModel>) -> Seq<CandidateInfoModel> {
    let all = ranked(list);
    all.take(at_most(all.len() as int, MAX_CANDIDATES as int))
}

/// What some drafts are drafts of
pub open spec fn draft_infos(drafts: Seq<DraftModel>) -> Seq<CandidateInfoModel> {
    Seq::new(drafts.len(), |i: int| drafts[i].info)
}

proof fn lemma_insert_ranked(
    ranking: Seq<CandidateInfoModel>,
    added: CandidateInfoModel,
    p: int,
)
    requires
        0 <= p <= ranking.len(),
        forall|i: int| p <= i < ranking.len() ==> is_better(added, #[trigger] ranking[i]),
        p > 0 ==> !is_better(added, ranking[p - 1]),
    ensures
        insert_ranked(ranking, added) == ranking.insert(p, added),
    decreases ranking.len(),
{
    if p < ranking.len() {
        assert(ranking.last() == ranking[ranking.len() - 1]);
        lemma_insert_ranked(ranking.drop_last(), added, p);
        assert(ranking.drop_last().insert(p, added).push(ranking.last()) =~= ranking.insert(
            p,
            added,
        ));
    } else {
        assert(ranking.push(added) =~= ranking.insert(p, added));
    }
}

fn comes_first(first: &CandidateInfo, second: &CandidateInfo) -> (better: bool)
    ensures
        better == is_better(first@, second@),
{
    if first.plan.is_some() == second.plan.is_some() {
        first.similarity > second.similarity
    } else {
        first.plan.is_some()
    }
}

fn add_ranked(ranking: &mut Vec<CandidateInfo>, added: CandidateInfo)
    ensures
        info_models(final(ranking)@) == insert_ranked(info_models(old(ranking)@), added@),
{
    let ghost before = info_models(ranking@);
    let mut p: usize = ranking.len();
    while p > 0 && comes_first(&added, &ranking[p - 1])
        invariant
            p <= ranking@.len(),
            before == info_models(ranking@),
            forall|i: int| p <= i < before.len() ==> is_better(added@, #[trigger] before[i]),
        decreases p,
    {
        p = p - 1;
    }
    proof {
        if p > 0 {
            assert(before[p - 1] == ranking@[p - 1]@);
        }
        lemma_insert_ranked(before, added@, p as int);
    }
    ranking.insert(p, added);
    assert(info_models(ranking@) =~= before.insert(p as int, added@));
}

/// The best candidates for a block: those a plan makes match first, then by similarity
pub fn candidates_for(drafts: Vec<CandidateDraft>) -> (chosen: Vec<CandidateInfo>)
    ensures
        info_models(chosen@) == best(draft_infos(draft_models(drafts@))),
{
    let ghost given = drafts@;
    let ghost infos = draft_infos(draft_models(given));
    let mut rest = drafts;
    let mut chosen: Vec<CandidateInfo> = Vec::new();
    let ghost mut i: int = 0;
    proof {
        assert(given.skip(0) =~= given);
        assert(info_models(chosen@) =~= ranked(infos.take(0)));
    }
    while rest.len() > 0
        invariant
            0 <= i <= given.len(),
            rest@ == given.skip(i),
            infos == draft_infos(draft_models(given)),
            info_models(chosen@) == ranked(infos.take(i)),
        decreases rest@.len(),
    {
        proof {
            assert(rest@[0] == given[i]);
            assert(infos.take(i + 1).drop_last() =~= infos.take(i));
            assert(infos.take(i + 1).last() == given[i].info@);
        }
        let draft = rest.remove(0);
        assert(rest@ =~= given.skip(i + 1));
        let info = draft.info;
        if info.plan.is_some() || info.similarity >= MIN_SIMILARITY {
            add_ranked(&mut chosen, info);
        }
        proof {
            i = i + 1;
        }
    }
    proof {
        assert(i == given.len());
        assert(infos.take(i) =~= infos);
    }
    let ghost all = info_models(chosen@);
    chosen.truncate(MAX_CANDIDATES);
    assert(info_models(chosen@) =~= all.take(at_most(all.len() as int, MAX_CANDIDATES as int)));
    chosen
}

/// Ignored content, with what its similarity to a block is worked out from
#[derive(Debug)]
pub struct FormerlyDraft {
    pub former: Formerly,
    pub comparison: Comparison,
}

#[verifier::ext_equal]
pub struct FormerlyDraftModel {
    pub former: FormerlyModel,
    pub comparison: ComparisonModel,
}

impl View for FormerlyDraft {
    type V = FormerlyDraftModel;

    open spec fn view(&self) -> FormerlyDraftModel {
        FormerlyDraftModel { former: self.former@, comparison: self.comparison@ }
    }
}

pub open spec fn formerly_draft_models(list: Seq<FormerlyDraft>) -> Seq<FormerlyDraftModel> {
    Seq::new(list.len(), |i: int| list[i]@)
}

/// Stale ignored content, compared with a block
pub open spec fn formerly_drafts(
    content: Seq<char>,
    stale: Seq<(Seq<char>, Seq<char>)>,
) -> Seq<FormerlyDraftModel> {
    Seq::new(
        stale.len(),
        |i: int|
            FormerlyDraftModel {
                former: FormerlyModel {
                    reason: stale[i].0,
                    content: stale[i].1,
                    similarity: 0,
                },
                comparison: similarity::similarity_spec(content, stale[i].1),
            },
    )
}

/// The stale ignored content, compared with the block
pub fn draft_formerly(block: &Block, stale_ignored: &Vec<(String, String)>) -> (drafts: Vec<
    FormerlyDraft,
>)
    ensures
        formerly_draft_models(drafts@) == formerly_drafts(
            block@.content,
            repo::pair_views(stale_ignored@),
        ),
{
    let ghost stale = repo::pair_views(stale_ignored@);
    let ghost expected = formerly_drafts(block@.content, stale);
    let mut drafts: Vec<FormerlyDraft> = Vec::new();
    let mut i: usize = 0;
    while i < stale_ignored.len()
        invariant
            i <= stale_ignored@.len(),
            stale == repo::pair_views(stale_ignored@),
            expected == formerly_drafts(block@.content, stale),
            drafts@.len() == i,
            forall|k: int| 0 <= k < i ==> (#[trigger] drafts@[k])@ == expected[k],
        decreases stale_ignored@.len() - i,
    {
        let (reason, content) = (&stale_ignored[i].0, &stale_ignored[i].1);
        assert(stale[i as int] == (reason@, content@));
        let comparison = similarity::similarity(block.content.as_str(), content.as_str());
        let former = Formerly {
            reason: reason.clone(),
            content: content.clone(),
            similarity: 0,
        };
        drafts.push(FormerlyDraft { former, comparison });
        i = i + 1;
    }
    assert(formerly_draft_models(drafts@) =~= expected);
    drafts
}

/// The last of the ignored contents most like a block, when any is like it enough
pub open spec fn most_like(list: Seq<FormerlyModel>) -> Option<FormerlyModel>
    decreases list.len(),
{
    if list.len() == 0 {
        None
    } else {
        let last = list.last();
        let so_far = most_like(list.drop_last());
        let is_closer = last.similarity >= MIN_FORMER_SIMILARITY && match so_far {
            Some(closest) => last.similarity >= closest.similarity,
            None => true,
        };
        if is_closer {
            Some(last)
        } else {
            so_far
        }
    }
}

/// What some drafts are drafts of
pub open spec fn draft_formers(drafts: Seq<FormerlyDraftModel>) -> Seq<FormerlyModel> {
    Seq::new(drafts.len(), |i: int| drafts[i].former)
}

/// The stale ignored content most like the block (the last of equals), when
/// any is like it enough
pub fn formerly(drafts: Vec<FormerlyDraft>) -> (closest: Option<Formerly>)
    ensures
        match closest {
            Some(closest) => most_like(draft_formers(formerly_draft_models(drafts@))) == Some(
                closest@,
            ),
            None => most_like(draft_formers(formerly_draft_models(drafts@))) is None,
        },
{
    let ghost given = drafts@;
    let ghost formers = draft_formers(formerly_draft_models(given));
    let mut rest = drafts;
    let mut closest: Option<Formerly> = None;
    let ghost mut i: int = 0;
    assert(given.skip(0) =~= given);
    while rest.len() > 0
        invariant
            0 <= i <= given.len(),
            rest@ == given.skip(i),
            formers == draft_formers(formerly_draft_models(given)),
            match closest {
                Some(closest) => most_like(formers.take(i)) == Some(closest@),
                None => most_like(formers.take(i)) is None,
            },
        decreases rest@.len(),
    {
        proof {
            assert(rest@[0] == given[i]);
            assert(formers.take(i + 1).drop_last() =~= formers.take(i));
            assert(formers.take(i + 1).last() == given[i].former@);
        }
        let draft = rest.remove(0);
        assert(rest@ =~= given.skip(i + 1));
        let former = draft.former;
        let is_closer = former.similarity >= MIN_FORMER_SIMILARITY && match &closest {
            Some(closest) => former.similarity >= closest.similarity,
            None => true,
        };
        if is_closer {
            closest = Some(former);
        }
        proof {
            i = i + 1;
        }
    }
    proof {
        assert(i == given.len());
        assert(formers.take(i) =~= formers);
    }
    closest
}

// ---------------------------------------------------------------------------
// The doc block most like some code
// ---------------------------------------------------------------------------

/// A block next to some marked code, with what their similarity is worked out from
pub struct ClosestBlock<'a> {
    pub block: &'a BlockEval,
    /// The block with the code's doc options applied
    pub doc: String,
    /// The code with its placeholders filled in from the block
    pub code: String,
    pub comparison: Comparison,
    /// The bits of a number from 0 to 1, which order as such numbers do
    pub similarity: u64,
}

#[verifier::ext_equal]
pub struct ClosestModel {
    pub block: BlockEvalModel,
    pub doc: Seq<char>,
    pub code: Seq<char>,
    pub comparison: ComparisonModel,
    pub similarity: u64,
}

impl<'a> View for ClosestBlock<'a> {
    type V = ClosestModel;

    open spec fn view(&self) -> ClosestModel {
        ClosestModel {
            block: self.block@,
            doc: self.doc@,
            code: self.code@,
            comparison: self.comparison@,
            similarity: self.similarity,
        }
    }
}

pub open spec fn closest_models<'a>(list: Seq<ClosestBlock<'a>>) -> Seq<ClosestModel> {
    Seq::new(list.len(), |i: int| list[i]@)
}

/// The blocks that some marked code is compared with: those that its doc options fit
pub open spec fn compared_spec(code: CodeModel, blocks: Seq<BlockEvalModel>) -> Result<
    Seq<ClosestModel>,
    Seq<char>,
>
    decreases blocks.len(),
{
    if blocks.len() == 0 {
        Ok(Seq::empty())
    } else {
        match compared_spec(code, blocks.drop_last()) {
            Err(error) => Err(error),
            Ok(list) => match eval::compare_spec(code, blocks.last().block) {
                Err(error) => Err(error),
                Ok(None) => Ok(list),
                Ok(Some((doc, filled))) => Ok(
                    list.push(
                        ClosestModel {
                            block: blocks.last(),
                            doc,
                            code: filled,
                            comparison: similarity::similarity_spec(doc, filled),
                            similarity: 0,
                        },
                    ),
                ),
            },
        }
    }
}

proof fn lemma_compared_error(code: CodeModel, blocks: Seq<BlockEvalModel>, i: int)
    requires
        0 <= i <= blocks.len(),
        compared_spec(code, blocks.take(i)) is Err,
    ensures
        compared_spec(code, blocks) == compared_spec(code, blocks.take(i)),
    decreases blocks.len(),
{
    if i < blocks.len() {
        assert(blocks.drop_last().take(i) =~= blocks.take(i));
        lemma_compared_error(code, blocks.drop_last(), i);
    } else {
        assert(blocks.take(i) =~= blocks);
    }
}

/// The doc blocks next to some marked code, their similarity still to be worked out
pub fn draft_closest<'a>(evaluation: &'a Evaluation, code: &MarkedCode) -> (drafts: Result<
    Vec<ClosestBlock<'a>>,
    String,
>)
    requires
        code.matcher.wf(),
    ensures
        match drafts {
            Ok(drafts) => compared_spec(code@, eval::all_blocks(evaluation@.assemblies)) == Ok::<
                _,
                Seq<char>,
            >(closest_models(drafts@)),
            Err(error) => compared_spec(code@, eval::all_blocks(evaluation@.assemblies)) == Err::<
                Seq<ClosestModel>,
                _,
            >(error@),
        },
{
    let blocks = eval::blocks_of(&evaluation.assemblies);
    let ghost models = eval::ref_models(blocks@);
    let mut drafts: Vec<ClosestBlock<'a>> = Vec::new();
    let mut i: usize = 0;
    assert(closest_models(drafts@) =~= Seq::<ClosestModel>::empty());
    while i < blocks.len()
        invariant
            i <= blocks@.len(),
            code.matcher.wf(),
            models == eval::ref_models(blocks@),
            models == eval::all_blocks(evaluation@.assemblies),
            compared_spec(code@, models.take(i as int)) == Ok::<_, Seq<char>>(
                closest_models(drafts@),
            ),
        decreases blocks@.len() - i,
    {
        let ghost before = closest_models(drafts@);
        let block = blocks[i];
        proof {
            assert(models.take(i + 1).drop_last() =~= models.take(i as int));
            assert(models.take(i + 1).last() == blocks@[i as int]@);
        }
        match eval::compare(code, &block.block) {
            Err(error) => {
                proof {
                    lemma_compared_error(code@, models, i + 1);
                }
                return Err(error);
            },
            Ok(None) => {},
            Ok(Some((doc, filled))) => {
                let comparison = similarity::similarity(doc.as_str(), filled.as_str());
                let draft = ClosestBlock { block, doc, code: filled, comparison, similarity: 0 };
                drafts.push(draft);
                assert(closest_models(drafts@) =~= before.push(draft@));
            },
        }
        i = i + 1;
    }
    assert(models.take(i as int) =~= models);
    Ok(drafts)
}

/// The first of the blocks most like some code, when any is like it enough
pub open spec fn closest_spec(list: Seq<ClosestModel>) -> Option<ClosestModel>
    decreases list.len(),
{
    if list.len() == 0 {
        None
    } else {
        let last = list.last();
        let so_far = closest_spec(list.drop_last());
        let is_closer = last.similarity >= MIN_SIMILARITY && match so_far {
            Some(closest) => last.similarity > closest.similarity,
            None => true,
        };
        if is_closer {
            Some(last)
        } else {
            so_far
        }
    }
}

/// The doc block most like some marked code (the first of equals), when any is like it
/// enough
pub fn closest_block<'a>(drafts: Vec<ClosestBlock<'a>>) -> (closest: Option<ClosestBlock<'a>>)
    ensures
        match closest {
            Some(closest) => closest_spec(closest_models(drafts@)) == Some(closest@),
            None => closest_spec(closest_models(drafts@)) is None,
        },
{
    let ghost given = drafts@;
    let ghost models = closest_models(given);
    let mut rest = drafts;
    let mut closest: Option<ClosestBlock<'a>> = None;
    let ghost mut i: int = 0;
    assert(given.skip(0) =~= given);
    while rest.len() > 0
        invariant
            0 <= i <= given.len(),
            rest@ == given.skip(i),
            models == closest_models(given),
            match closest {
                Some(closest) => closest_spec(models.take(i)) == Some(closest@),
                None => closest_spec(models.take(i)) is None,
            },
        decreases rest@.len(),
    {
        proof {
            assert(rest@[0] == given[i]);
            assert(models.take(i + 1).drop_last() =~= models.take(i));
            assert(models.take(i + 1).last() == given[i]@);
        }
        let draft = rest.remove(0);
        assert(rest@ =~= given.skip(i + 1));
        let is_closer = draft.similarity >= MIN_SIMILARITY && match &closest {
            Some(closest) => draft.similarity > closest.similarity,
            None => true,
        };
        if is_closer {
            closest = Some(draft);
        }
        proof {
            i = i + 1;
        }
    }
    proof {
        assert(i == given.len());
        assert(models.take(i) =~= models);
    }
    closest
}

// ---------------------------------------------------------------------------
// The blocks still to resolve
// ---------------------------------------------------------------------------

/// What was found for a block still to resolve; nothing for one that isn't
pub struct BlockDraft {
    pub candidates: Vec<CandidateDraft>,
    pub formerly: Vec<FormerlyDraft>,
}

#[verifier::ext_equal]
pub struct BlockDraftModel {
    pub candidates: Seq<DraftModel>,
    pub formerly: Seq<FormerlyDraftModel>,
}

impl View for BlockDraft {
    type V = BlockDraftModel;

    open spec fn view(&self) -> BlockDraftModel {
        BlockDraftModel {
            candidates: draft_models(self.candidates@),
            formerly: formerly_draft_models(self.formerly@),
        }
    }
}

pub open spec fn block_draft_models(list: Seq<BlockDraft>) -> Seq<BlockDraftModel> {
    Seq::new(list.len(), |i: int| list[i]@)
}

/// What is found for a block
pub open spec fn draft_block_spec(
    found: BlockEvalModel,
    pool: Seq<PoolModel>,
    stale: Seq<(Seq<char>, Seq<char>)>,
) -> Result<BlockDraftModel, Seq<char>> {
    if found.is_done() {
        Ok(BlockDraftModel { candidates: Seq::empty(), formerly: Seq::empty() })
    } else {
        match lightbulb::in_context(
            block_drafts(found.block, pool),
            "finding code resembling "@ + found.block.reference,
        ) {
            Err(error) => Err(error),
            Ok(candidates) => Ok(
                BlockDraftModel {
                    candidates,
                    formerly: formerly_drafts(found.block.content, stale),
                },
            ),
        }
    }
}

/// What is found for each of some blocks
pub open spec fn draft_blocks_spec(
    blocks: Seq<BlockEvalModel>,
    pool: Seq<PoolModel>,
    stale: Seq<(Seq<char>, Seq<char>)>,
) -> Result<Seq<BlockDraftModel>, Seq<char>>
    decreases blocks.len(),
{
    if blocks.len() == 0 {
        Ok(Seq::empty())
    } else {
        match draft_blocks_spec(blocks.drop_last(), pool, stale) {
            Err(error) => Err(error),
            Ok(drafts) => match draft_block_spec(blocks.last(), pool, stale) {
                Err(error) => Err(error),
                Ok(draft) => Ok(drafts.push(draft)),
            },
        }
    }
}

proof fn lemma_draft_blocks_error(
    blocks: Seq<BlockEvalModel>,
    pool: Seq<PoolModel>,
    stale: Seq<(Seq<char>, Seq<char>)>,
    i: int,
)
    requires
        0 <= i <= blocks.len(),
        draft_blocks_spec(blocks.take(i), pool, stale) is Err,
    ensures
        draft_blocks_spec(blocks, pool, stale) == draft_blocks_spec(blocks.take(i), pool, stale),
    decreases blocks.len(),
{
    if i < blocks.len() {
        assert(blocks.drop_last().take(i) =~= blocks.take(i));
        lemma_draft_blocks_error(blocks.drop_last(), pool, stale, i);
    } else {
        assert(blocks.take(i) =~= blocks);
    }
}

fn draft_block(
    found: &BlockEval,
    pool: &Vec<CandidatePoolEntry<'_>>,
    stale_ignored: &Vec<(String, String)>,
) -> (draft: Result<BlockDraft, String>)
    requires
        pool_wf(pool@),
    ensures
        match draft {
            Ok(draft) => draft_block_spec(
                found@,
                pool_models(pool@),
                repo::pair_views(stale_ignored@),
            ) == Ok::<_, Seq<char>>(draft@),
            Err(error) => draft_block_spec(
                found@,
                pool_models(pool@),
                repo::pair_views(stale_ignored@),
            ) == Err::<BlockDraftModel, _>(error@),
        },
{
    if found.done() {
        let draft = BlockDraft { candidates: Vec::new(), formerly: Vec::new() };
        proof {
            assert(draft@.candidates =~= Seq::empty());
            assert(draft@.formerly =~= Seq::empty());
        }
        return Ok(draft);
    }
    match draft_candidates(&found.block, pool) {
        Err(error) => {
            let mut context = "finding code resembling ".to_owned();
            context.append(found.block.reference.as_str());
            Err(lightbulb::error_in(context.as_str(), error))
        },
        Ok(candidates) => Ok(
            BlockDraft { candidates, formerly: draft_formerly(&found.block, stale_ignored) },
        ),
    }
}

/// What is found for all the blocks of an evaluation
pub open spec fn draft_all_spec(
    assemblies: Seq<AssemblyEvalModel>,
    scan: RepoModel,
    stale: Seq<(Seq<char>, Seq<char>)>,
) -> Result<Seq<BlockDraftModel>, Seq<char>> {
    lightbulb::in_context(
        draft_blocks_spec(eval::all_blocks(assemblies), pool_spec(scan), stale),
        "finding code like the blocks to resolve"@,
    )
}

/// For each block, in order: the code it's compared with and the stale ignored content
/// it may have had, when it's still to resolve
pub fn draft_all(evaluation: &Evaluation) -> (drafts: Result<Vec<BlockDraft>, String>)
    requires
        evaluation.wf(),
    ensures
        match drafts {
            Ok(drafts) => draft_all_spec(
                evaluation@.assemblies,
                evaluation@.scan,
                evaluation@.stale_ignored,
            ) == Ok::<_, Seq<char>>(block_draft_models(drafts@)),
            Err(error) => draft_all_spec(
                evaluation@.assemblies,
                evaluation@.scan,
                evaluation@.stale_ignored,
            ) == Err::<Seq<BlockDraftModel>, _>(error@),
        },
{
    let pool = candidate_pool(&evaluation.scan);
    let blocks = eval::blocks_of(&evaluation.assemblies);
    let ghost entries = pool_models(pool@);
    let ghost models = eval::ref_models(blocks@);
    let ghost stale = evaluation@.stale_ignored;
    let mut drafts: Vec<BlockDraft> = Vec::new();
    let mut i: usize = 0;
    assert(block_draft_models(drafts@) =~= Seq::<BlockDraftModel>::empty());
    while i < blocks.len()
        invariant
            i <= blocks@.len(),
            pool_wf(pool@),
            entries == pool_models(pool@),
            entries == pool_spec(evaluation@.scan),
            models == eval::ref_models(blocks@),
            models == eval::all_blocks(evaluation@.assemblies),
            stale == evaluation@.stale_ignored,
            draft_blocks_spec(models.take(i as int), entries, stale) == Ok::<_, Seq<char>>(
                block_draft_models(drafts@),
            ),
        decreases blocks@.len() - i,
    {
        let ghost before = block_draft_models(drafts@);
        proof {
            assert(models.take(i + 1).drop_last() =~= models.take(i as int));
            assert(models.take(i + 1).last() == blocks@[i as int]@);
        }
        match draft_block(blocks[i], &pool, &evaluation.stale_ignored) {
            Err(error) => {
                proof {
                    lemma_draft_blocks_error(models, entries, stale, i + 1);
                }
                return Err(lightbulb::error_in("finding code like the blocks to resolve", error));
            },
            Ok(draft) => {
                drafts.push(draft);
                assert(block_draft_models(drafts@) =~= before.push(draft@));
            },
        }
        i = i + 1;
    }
    assert(models.take(i as int) =~= models);
    Ok(drafts)
}

/// The content a block probably used to have, as a list
pub open spec fn former_list(drafts: Seq<FormerlyDraftModel>) -> Seq<FormerlyModel> {
    match most_like(draft_formers(drafts)) {
        Some(former) => seq![former],
        None => Seq::empty(),
    }
}

/// A block, with what was found for it when it's still to resolve
pub open spec fn with_draft(found: BlockEvalModel, draft: BlockDraftModel) -> BlockEvalModel {
    if found.is_done() {
        found
    } else {
        BlockEvalModel {
            candidates: best(draft_infos(draft.candidates)),
            formerly: former_list(draft.formerly),
            ..found
        }
    }
}

/// Blocks, with what was found for each from the `from`th draft on
pub open spec fn with_drafts(
    blocks: Seq<BlockEvalModel>,
    drafts: Seq<BlockDraftModel>,
    from: int,
) -> Seq<BlockEvalModel> {
    Seq::new(
        blocks.len(),
        |i: int|
            if from + i < drafts.len() {
                with_draft(blocks[i], drafts[from + i])
            } else {
                blocks[i]
            },
    )
}

/// Assemblies, with what was found for their blocks
pub open spec fn add_candidates_spec(
    assemblies: Seq<AssemblyEvalModel>,
    drafts: Seq<BlockDraftModel>,
) -> Seq<AssemblyEvalModel>
    decreases assemblies.len(),
{
    if assemblies.len() == 0 {
        Seq::empty()
    } else {
        let rest = assemblies.drop_last();
        add_candidates_spec(rest, drafts).push(
            AssemblyEvalModel {
                assembly: assemblies.last().assembly,
                blocks: with_drafts(
                    assemblies.last().blocks,
                    drafts,
                    eval::all_blocks(rest).len() as int,
                ),
            },
        )
    }
}

fn add_draft(found: BlockEval, draft: BlockDraft) -> (filled: BlockEval)
    ensures
        filled@ == with_draft(found@, draft@),
{
    if found.done() {
        return found;
    }
    let mut filled = found;
    filled.candidates = candidates_for(draft.candidates);
    let mut former: Vec<Formerly> = Vec::new();
    assert(formerly_models(former@) =~= Seq::empty());
    if let Some(closest) = formerly(draft.formerly) {
        former.push(closest);
        assert(formerly_models(former@) =~= seq![closest@]);
    }
    filled.formerly = former;
    filled
}

fn add_drafts(
    blocks: Vec<BlockEval>,
    rest: &mut Vec<BlockDraft>,
    Ghost(drafts): Ghost<Seq<BlockDraft>>,
    Ghost(from): Ghost<int>,
) -> (filled: Vec<BlockEval>)
    requires
        0 <= from,
        old(rest)@ == drafts.skip(at_most(from, drafts.len() as int)),
    ensures
        final(rest)@ == drafts.skip(at_most(from + blocks@.len(), drafts.len() as int)),
        eval::block_eval_models(filled@) == with_drafts(
            eval::block_eval_models(blocks@),
            block_draft_models(drafts),
            from,
        ),
{
    let ghost given = blocks@;
    let ghost models = eval::block_eval_models(given);
    let ghost expected = with_drafts(models, block_draft_models(drafts), from);
    let mut left = blocks;
    let mut filled: Vec<BlockEval> = Vec::new();
    let ghost mut i: int = 0;
    assert(given.skip(0) =~= given);
    while left.len() > 0
        invariant
            0 <= from,
            0 <= i <= given.len(),
            left@ == given.skip(i),
            models == eval::block_eval_models(given),
            expected == with_drafts(models, block_draft_models(drafts), from),
            rest@ == drafts.skip(at_most(from + i, drafts.len() as int)),
            filled@.len() == i,
            forall|k: int| 0 <= k < i ==> (#[trigger] filled@[k])@ == expected[k],
        decreases left@.len(),
    {
        proof {
            assert(left@[0] == given[i]);
            assert(models[i] == given[i]@);
        }
        let found = left.remove(0);
        assert(left@ =~= given.skip(i + 1));
        let next = if rest.len() > 0 {
            proof {
                assert(rest@[0] == drafts[from + i]);
                assert(block_draft_models(drafts)[from + i] == drafts[from + i]@);
            }
            let draft = rest.remove(0);
            assert(rest@ =~= drafts.skip(from + i + 1));
            add_draft(found, draft)
        } else {
            found
        };
        filled.push(next);
        proof {
            i = i + 1;
        }
    }
    assert(eval::block_eval_models(filled@) =~= expected);
    filled
}

/// For each block still to resolve: the code most like it, and the stale ignored content
/// it probably used to be, given all the blocks' drafts with their similarities filled in
pub fn add_candidates(evaluation: Evaluation, drafts: Vec<BlockDraft>) -> (filled: Evaluation)
    requires
        evaluation.wf(),
    ensures
        filled.wf(),
        filled@.assemblies == add_candidates_spec(
            evaluation@.assemblies,
            block_draft_models(drafts@),
        ),
        filled@.scan == evaluation@.scan,
        filled@.stale_ignored == evaluation@.stale_ignored,
        filled@.unused == evaluation@.unused,
{
    let ghost given = evaluation.assemblies@;
    let ghost models = eval::assembly_eval_models(given);
    let ghost all = drafts@;
    let ghost draft_views = block_draft_models(all);
    let mut rest = drafts;
    let mut left = evaluation.assemblies;
    let mut assemblies: Vec<AssemblyEval> = Vec::new();
    let ghost mut i: int = 0;
    proof {
        assert(given.skip(0) =~= given);
        assert(all.skip(0) =~= all);
        assert(eval::assembly_eval_models(assemblies@) =~= add_candidates_spec(
            models.take(0),
            draft_views,
        ));
    }
    while left.len() > 0
        invariant
            0 <= i <= given.len(),
            left@ == given.skip(i),
            models == eval::assembly_eval_models(given),
            draft_views == block_draft_models(all),
            rest@ == all.skip(
                at_most(eval::all_blocks(models.take(i)).len() as int, all.len() as int),
            ),
            eval::assembly_eval_models(assemblies@) == add_candidates_spec(
                models.take(i),
                draft_views,
            ),
        decreases left@.len(),
    {
        let ghost before = eval::assembly_eval_models(assemblies@);
        let ghost from = eval::all_blocks(models.take(i)).len() as int;
        proof {
            assert(left@[0] == given[i]);
            assert(models.take(i + 1).drop_last() =~= models.take(i));
            assert(models.take(i + 1).last() == given[i]@);
        }
        let next = left.remove(0);
        assert(left@ =~= given.skip(i + 1));
        let blocks = add_drafts(next.blocks, &mut rest, Ghost(all), Ghost(from));
        let filled = AssemblyEval { assembly: next.assembly, blocks };
        assemblies.push(filled);
        assert(eval::assembly_eval_models(assemblies@) =~= before.push(filled@));
        proof {
            i = i + 1;
        }
    }
    proof {
        assert(i == given.len());
        assert(models.take(i) =~= models);
    }
    Evaluation {
        assemblies,
        scan: evaluation.scan,
        stale_ignored: evaluation.stale_ignored,
        unused: evaluation.unused,
    }
}

// ---------------------------------------------------------------------------
// Laws
// ---------------------------------------------------------------------------

/// Whether each candidate of a ranking is at least as good as the next ones
pub open spec fn is_ranking(list: Seq<CandidateInfoModel>) -> bool {
    forall|i: int, j: int|
        0 <= i < j < list.len() ==> !is_better(#[trigger] list[j], #[trigger] list[i])
}

proof fn lemma_insert_keeps_ranking(
    ranking: Seq<CandidateInfoModel>,
    added: CandidateInfoModel,
)
    requires
        is_ranking(ranking),
    ensures
        is_ranking(insert_ranked(ranking, added)),
        insert_ranked(ranking, added).to_multiset() == ranking.to_multiset().insert(added),
        insert_ranked(ranking, added).len() == ranking.len() + 1,
    decreases ranking.len(),
{
    broadcast use vstd::seq_lib::group_to_multiset_ensures;

    let result = insert_ranked(ranking, added);
    if ranking.len() > 0 && is_better(added, ranking.last()) {
        let head = ranking.drop_last();
        lemma_insert_keeps_ranking(head, added);
        let inner = insert_ranked(head, added);
        assert(ranking =~= head.push(ranking.last()));
        assert(result.to_multiset() =~= ranking.to_multiset().insert(added));
        assert forall|i: int, j: int| 0 <= i < j < result.len() implies !is_better(
            #[trigger] result[j],
            #[trigger] result[i],
        ) by {
            if j == result.len() - 1 {
                assert(inner.contains(inner[i]));
                assert(inner.to_multiset().count(inner[i]) > 0);
                if inner[i] != added {
                    assert(head.to_multiset().count(inner[i]) > 0);
                    assert(head.contains(inner[i]));
                    let k = choose|k: int| 0 <= k < head.len() && head[k] == inner[i];
                    assert(!is_better(ranking[ranking.len() - 1], ranking[k]));
                }
            } else {
                assert(result[j] == inner[j]);
                assert(result[i] == inner[i]);
            }
        }
    } else {
        assert forall|i: int, j: int| 0 <= i < j < result.len() implies !is_better(
            #[trigger] result[j],
            #[trigger] result[i],
        ) by {
            if j == result.len() - 1 {
                let last = ranking[ranking.len() - 1];
                if i < ranking.len() - 1 {
                    assert(!is_better(last, ranking[i]));
                }
            } else {
                assert(result[j] == ranking[j]);
            }
        }
    }
}

/// The candidates that are shown
pub open spec fn kept(list: Seq<CandidateInfoModel>) -> Seq<CandidateInfoModel>
    decreases list.len(),
{
    if list.len() == 0 {
        Seq::empty()
    } else if is_kept(list.last()) {
        kept(list.drop_last()).push(list.last())
    } else {
        kept(list.drop_last())
    }
}

/// The candidates for a block are ranked: all of those that a plan makes match or that
/// are like the block enough, and only those, the better ones first
pub proof fn law_candidates_are_ranked(list: Seq<CandidateInfoModel>)
    ensures
        is_ranking(ranked(list)),
        ranked(list).to_multiset() == kept(list).to_multiset(),
    decreases list.len(),
{
    broadcast use vstd::seq_lib::group_to_multiset_ensures;

    if list.len() > 0 {
        law_candidates_are_ranked(list.drop_last());
        if is_kept(list.last()) {
            lemma_insert_keeps_ranking(ranked(list.drop_last()), list.last());
        }
    }
}

/// The block closest to some code is like it enough, and no other is more like it; there
/// is one unless none is like it enough
pub proof fn law_closest(list: Seq<ClosestModel>)
    ensures
        match closest_spec(list) {
            Some(closest) => list.contains(closest) && closest.similarity >= MIN_SIMILARITY && (
            forall|i: int|
                0 <= i < list.len() ==> (#[trigger] list[i]).similarity <= closest.similarity),
            None => forall|i: int|
                0 <= i < list.len() ==> (#[trigger] list[i]).similarity < MIN_SIMILARITY,
        },
    decreases list.len(),
{
    if list.len() > 0 {
        let head = list.drop_last();
        law_closest(head);
        assert forall|i: int| 0 <= i < list.len() - 1 implies (#[trigger] list[i]) == head[i] by {}
        assert(list[list.len() - 1] == list.last());
        if let Some(closest) = closest_spec(head) {
            let k = choose|k: int| 0 <= k < head.len() && head[k] == closest;
            assert(list[k] == closest);
        }
    }
}

/// The ignored content a block probably used to have is like it enough, and no other is
/// more like it; there is one unless none is like it enough
pub proof fn law_formerly(list: Seq<FormerlyModel>)
    ensures
        match most_like(list) {
            Some(former) => list.contains(former) && former.similarity >= MIN_FORMER_SIMILARITY
                && (forall|i: int|
                0 <= i < list.len() ==> (#[trigger] list[i]).similarity <= former.similarity),
            None => forall|i: int|
                0 <= i < list.len() ==> (#[trigger] list[i]).similarity < MIN_FORMER_SIMILARITY,
        },
    decreases list.len(),
{
    if list.len() > 0 {
        let head = list.drop_last();
        law_formerly(head);
        assert forall|i: int| 0 <= i < list.len() - 1 implies (#[trigger] list[i]) == head[i] by {}
        assert(list[list.len() - 1] == list.last());
        if let Some(former) = most_like(head) {
            let k = choose|k: int| 0 <= k < head.len() && head[k] == former;
            assert(list[k] == former);
        }
    }
}

} // verus!
