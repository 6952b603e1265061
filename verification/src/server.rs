//! `asadoc serve`: what the review UI is sent and what it may ask for. The UI
//! (browser JS) only presents; everything it shows is computed here, and every
//! change it asks for is decided here.

use crate::apply;
use crate::candidates;
use crate::candidates::{CandidateInfo, CandidateInfoModel, Formerly, FormerlyModel};
use crate::config::{Links, LinksModel};
use crate::docs;
use crate::eval;
use crate::eval::{
    AssemblyEval, AssemblyEvalModel, BlockEval, BlockEvalModel, CodeMatch, Evaluation,
    EvaluationModel, MatchModel,
};
use crate::ignored;
use crate::lightbulb;
use crate::lightbulb::{LightbulbPlan, PlanModel};
use crate::lines;
use crate::matching::Values;
use crate::options;
use crate::options::{MarkerOption, OptionModel};
use crate::repo;
use crate::repo::{CodeModel, MarkedCode, Problem, ProblemModel};
use crate::report;
use crate::text;
use crate::text::CharClass;
use vstd::prelude::*;

verus! {

// ---------------------------------------------------------------------------
// What may be asked for
// ---------------------------------------------------------------------------

/// Whether a name is that of a directory of generated files
pub open spec fn is_generated_dir(name: Seq<char>) -> bool {
    name == ".git"@ || name == "node_modules"@ || name == "target"@
}

/// Whether a change to a path is one open pages don't care about
pub open spec fn is_generated_spec(path: Seq<char>) -> bool {
    exists|i: int|
        0 <= i < lines::split(path, '/').len() && is_generated_dir(
            #[trigger] lines::split(path, '/')[i],
        )
}

/// Whether a change to `path` is one open pages don't care about
pub fn is_generated(path: &str) -> (generated: bool)
    ensures
        generated == is_generated_spec(path@),
{
    let parts = lines::split_text(path, '/');
    let ghost views = text::views(parts@);
    let mut i: usize = 0;
    while i < parts.len()
        invariant
            i <= parts@.len(),
            views == text::views(parts@),
            views == lines::split(path@, '/'),
            forall|k: int| 0 <= k < i ==> !is_generated_dir(#[trigger] views[k]),
        decreases parts@.len() - i,
    {
        assert(views[i as int] == parts@[i as int]@);
        let part = parts[i].as_str();
        if text::same(part, ".git") || text::same(part, "node_modules") || text::same(
            part,
            "target",
        ) {
            return true;
        }
        i = i + 1;
    }
    false
}

/// Whether a name can be that of a module: nothing in it leads elsewhere
pub fn is_plain_module_name(module_name: &str) -> (plain: bool)
    ensures
        plain == text::all_of(module_name@, CharClass::Module),
{
    text::is_all(module_name, CharClass::Module)
}

/// Whether a path is relative and leads nowhere but down: none of its parts goes up, and
/// it doesn't start at the root or with `.`
pub open spec fn is_plain_relative_spec(path: Seq<char>) -> bool {
    let parts = lines::split(path, '/');
    &&& path.len() == 0 || parts[0].len() > 0
    &&& parts[0] != "."@
    &&& !parts.contains(".."@)
}

/// Whether a path is a plain relative one, inside the repo
pub fn is_plain_relative(path: &str) -> (plain: bool)
    ensures
        plain == is_plain_relative_spec(path@),
{
    let parts = lines::split_text(path, '/');
    assert(text::views(parts@)[0] == parts@[0]@);
    let is_empty = text::chars_of(path).len() == 0;
    if !is_empty && text::chars_of(parts[0].as_str()).len() == 0 {
        return false;
    }
    !text::same(parts[0].as_str(), ".") && !text::list_contains(&parts, "..")
}

/// The first of some assembly files that holds the assembly with an id, reading no
/// further
pub open spec fn find_assembly_spec(
    paths: Seq<Seq<char>>,
    texts: Seq<Result<Seq<char>, Seq<char>>>,
    assembly_id: Seq<char>,
    i: int,
) -> Result<Option<Seq<char>>, Seq<char>>
    decreases paths.len() - i,
{
    if !(0 <= i < paths.len()) {
        Ok(None)
    } else {
        let read = match texts[i] {
            Err(error) => Err(error),
            Ok(s) => docs::assembly_spec(paths[i], s),
        };
        match lightbulb::in_context(read, "reading the assembly "@ + paths[i]) {
            Err(error) => Err(error),
            Ok(assembly) => if assembly.id == assembly_id {
                Ok(Some(paths[i]))
            } else {
                find_assembly_spec(paths, texts, assembly_id, i + 1)
            },
        }
    }
}

/// What reading some files came to
pub open spec fn text_results(list: Seq<Result<String, String>>) -> Seq<
    Result<Seq<char>, Seq<char>>,
> {
    Seq::new(
        list.len(),
        |i: int|
            match list[i] {
                Ok(s) => Ok(s@),
                Err(error) => Err(error@),
            },
    )
}

/// The path of the assembly with the given `assembly_id`, if any, given what reading the
/// assembly files came to
pub fn find_assembly(
    paths: &Vec<String>,
    texts: &Vec<Result<String, String>>,
    assembly_id: &str,
) -> (path: Result<Option<String>, String>)
    requires
        texts@.len() == paths@.len(),
    ensures
        ({
            let expected = find_assembly_spec(
                text::views(paths@),
                text_results(texts@),
                assembly_id@,
                0,
            );
            match path {
                Ok(path) => expected == Ok::<_, Seq<char>>(text::option_view(path)),
                Err(error) => expected == Err::<Option<Seq<char>>, _>(error@),
            }
        }),
{
    let ghost views = text::views(paths@);
    let ghost results = text_results(texts@);
    let mut i: usize = 0;
    while i < paths.len()
        invariant
            i <= paths@.len(),
            texts@.len() == paths@.len(),
            views == text::views(paths@),
            results == text_results(texts@),
            find_assembly_spec(views, results, assembly_id@, 0) == find_assembly_spec(
                views,
                results,
                assembly_id@,
                i as int,
            ),
        decreases paths@.len() - i,
    {
        assert(views[i as int] == paths@[i as int]@);
        let read = match &texts[i] {
            Err(error) => Err(error.clone()),
            Ok(s) => docs::read_assembly(paths[i].as_str(), s.as_str()),
        };
        match read {
            Err(error) => {
                let mut context = "reading the assembly ".to_owned();
                context.append(paths[i].as_str());
                return Err(lightbulb::error_in(context.as_str(), error));
            },
            Ok(assembly) => {
                if text::same(assembly.id.as_str(), assembly_id) {
                    return Ok(Some(paths[i].clone()));
                }
            },
        }
        i = i + 1;
    }
    Ok(None)
}

/// What a failed request is answered with
#[derive(Clone, Copy, Debug, PartialEq, Eq, Structural)]
pub enum ApiStatus {
    BadRequest,
    NotFound,
    Conflict,
}

/// A failed request: the status to answer with, and why
#[derive(Debug)]
pub struct ApiError {
    pub status: ApiStatus,
    pub message: String,
}

pub struct ApiErrorModel {
    pub status: ApiStatus,
    pub message: Seq<char>,
}

impl View for ApiError {
    type V = ApiErrorModel;

    open spec fn view(&self) -> ApiErrorModel {
        ApiErrorModel { status: self.status, message: self.message@ }
    }
}

/// The module that a request is for, when its name is plain
pub fn check_module(assembly_path: &Option<String>, assembly_id: &str, module: &str) -> (checked:
    Result<(), ApiError>)
    ensures
        match checked {
            Ok(_) => assembly_path is Some && text::all_of(module@, CharClass::Module),
            Err(error) => if assembly_path is None {
                error@ == (ApiErrorModel {
                    status: ApiStatus::NotFound,
                    message: "no assembly "@ + assembly_id@,
                })
            } else {
                !text::all_of(module@, CharClass::Module) && error@ == (ApiErrorModel {
                    status: ApiStatus::BadRequest,
                    message: "bad module name "@ + apply::debug_text(module@),
                })
            },
        },
{
    if assembly_path.is_none() {
        let mut message = "no assembly ".to_owned();
        message.append(assembly_id);
        return Err(ApiError { status: ApiStatus::NotFound, message });
    }
    if !is_plain_module_name(module) {
        let shown = apply::show_debug(module);
        let mut message = "bad module name ".to_owned();
        message.append(shown.as_str());
        return Err(ApiError { status: ApiStatus::BadRequest, message });
    }
    Ok(())
}

/// The text of a module for rendering, if there's such a module
pub fn found_module(module: &str, module_text: Option<String>) -> (rendered: Result<
    String,
    ApiError,
>)
    ensures
        match rendered {
            Ok(rendered) => module_text matches Some(s) && rendered@ == docs::without_comments(
                lines::split(s@, '\n'),
                lines::split(s@, '\n').len() as int,
            ),
            Err(error) => module_text is None && error@ == (ApiErrorModel {
                status: ApiStatus::NotFound,
                message: "no module "@ + module@,
            }),
        },
{
    match module_text {
        Some(s) => Ok(docs::module_for_rendering(s.as_str())),
        None => {
            let mut message = "no module ".to_owned();
            message.append(module);
            Err(ApiError { status: ApiStatus::NotFound, message })
        },
    }
}

/// Whether a repo file may be shown: only plain relative paths inside the repo
pub fn check_file(path: &str) -> (checked: Result<(), ApiError>)
    ensures
        match checked {
            Ok(_) => is_plain_relative_spec(path@),
            Err(error) => !is_plain_relative_spec(path@) && error@ == (ApiErrorModel {
                status: ApiStatus::BadRequest,
                message: "bad path "@ + apply::debug_text(path@),
            }),
        },
{
    if is_plain_relative(path) {
        return Ok(());
    }
    let shown = apply::show_debug(path);
    let mut message = "bad path ".to_owned();
    message.append(shown.as_str());
    Err(ApiError { status: ApiStatus::BadRequest, message })
}

/// A repo file's text, if it is a text file
pub fn found_file(path: &str, file_text: Option<String>) -> (found: Result<String, ApiError>)
    ensures
        match found {
            Ok(found) => file_text == Some(found),
            Err(error) => file_text is None && error@ == (ApiErrorModel {
                status: ApiStatus::NotFound,
                message: "no text file "@ + path@,
            }),
        },
{
    match file_text {
        Some(file_text) => Ok(file_text),
        None => {
            let mut message = "no text file ".to_owned();
            message.append(path);
            Err(ApiError { status: ApiStatus::NotFound, message })
        },
    }
}

// ---------------------------------------------------------------------------
// Actions
// ---------------------------------------------------------------------------

/// What is asked for a block
#[derive(Debug)]
pub struct BlockAction {
    pub assembly_id: String,
    pub reference: String,
    pub candidate_id: Option<String>,
    pub reason: Option<String>,
    pub replacing_content: Option<String>,
}

/// The doc block an action is on
pub open spec fn find_block_spec(
    evaluation: EvaluationModel,
    assembly_id: Seq<char>,
    reference: Seq<char>,
) -> Result<BlockEvalModel, ApiErrorModel> {
    match eval::find_spec(evaluation.assemblies, assembly_id, reference, 0) {
        Some(found) => Ok(found),
        None => Err(
            ApiErrorModel {
                status: ApiStatus::NotFound,
                message: "doc block "@ + reference + " not found"@,
            },
        ),
    }
}

/// The doc block an action is on
pub fn find_block<'a>(evaluation: &'a Evaluation, action: &BlockAction) -> (block: Result<
    &'a BlockEval,
    ApiError,
>)
    ensures
        match block {
            Ok(block) => find_block_spec(evaluation@, action.assembly_id@, action.reference@)
                == Ok::<_, ApiErrorModel>(block@),
            Err(error) => find_block_spec(evaluation@, action.assembly_id@, action.reference@)
                == Err::<BlockEvalModel, _>(error@),
        },
{
    match evaluation.find(action.assembly_id.as_str(), action.reference.as_str()) {
        Some(found) => Ok(found),
        None => Err(
            ApiError {
                status: ApiStatus::NotFound,
                message: text::surround("doc block ", action.reference.as_str(), " not found"),
            },
        ),
    }
}

/// A text that's empty when it's not given
pub open spec fn or_empty(given: Option<Seq<char>>) -> Seq<char> {
    match given {
        Some(given) => given,
        None => ""@,
    }
}

fn text_or_empty(given: &Option<String>) -> (result: String)
    ensures
        result@ == or_empty(text::option_view(*given)),
{
    match given {
        Some(given) => given.clone(),
        None => "".to_owned(),
    }
}

/// A change to make to marked code, or to a file
#[derive(Debug)]
pub struct FixRequest {
    pub candidate_id: String,
    pub file: String,
    pub name: Option<String>,
    pub plan: LightbulbPlan,
}

pub struct FixRequestModel {
    pub candidate_id: Seq<char>,
    pub file: Seq<char>,
    pub name: Option<Seq<char>>,
    pub plan: PlanModel,
}

impl View for FixRequest {
    type V = FixRequestModel;

    open spec fn view(&self) -> FixRequestModel {
        FixRequestModel {
            candidate_id: self.candidate_id@,
            file: self.file@,
            name: text::option_view(self.name),
            plan: self.plan@,
        }
    }
}

/// The first candidate with an id, from the `i`th on
pub open spec fn candidate_with(
    list: Seq<CandidateInfoModel>,
    id: Seq<char>,
    i: int,
) -> Option<CandidateInfoModel>
    decreases list.len() - i,
{
    if !(0 <= i < list.len()) {
        None
    } else if list[i].id == id {
        Some(list[i])
    } else {
        candidate_with(list, id, i + 1)
    }
}

fn find_candidate<'a>(list: &'a Vec<CandidateInfo>, id: &str) -> (found: Option<&'a CandidateInfo>)
    ensures
        match found {
            Some(found) => candidate_with(candidates::info_models(list@), id@, 0) == Some(found@),
            None => candidate_with(candidates::info_models(list@), id@, 0) is None,
        },
{
    let ghost models = candidates::info_models(list@);
    let mut i: usize = 0;
    while i < list.len()
        invariant
            i <= list@.len(),
            models == candidates::info_models(list@),
            candidate_with(models, id@, 0) == candidate_with(models, id@, i as int),
        decreases list@.len() - i,
    {
        assert(models[i as int] == list@[i as int]@);
        if text::same(list[i].id.as_str(), id) {
            return Some(&list[i]);
        }
        i = i + 1;
    }
    None
}

/// The change that a request to fix a block is for
pub open spec fn apply_fix_spec(
    evaluation: EvaluationModel,
    assembly_id: Seq<char>,
    reference: Seq<char>,
    candidate_id: Seq<char>,
) -> Result<FixRequestModel, ApiErrorModel> {
    match find_block_spec(evaluation, assembly_id, reference) {
        Err(error) => Err(error),
        Ok(found) => {
            let gone = ApiErrorModel {
                status: ApiStatus::Conflict,
                message: candidate_id + " has no fix for "@ + reference + " anymore"@,
            };
            match candidate_with(found.candidates, candidate_id, 0) {
                None => Err(gone),
                Some(candidate) => match candidate.plan {
                    None => Err(gone),
                    Some(plan) => Ok(
                        FixRequestModel {
                            candidate_id,
                            file: candidate.file,
                            name: candidate.name,
                            plan,
                        },
                    ),
                },
            }
        },
    }
}

/// The change that a request to fix a block is for
pub fn apply_fix(evaluation: &Evaluation, action: &BlockAction) -> (request: Result<
    FixRequest,
    ApiError,
>)
    ensures
        ({
            let expected = apply_fix_spec(
                evaluation@,
                action.assembly_id@,
                action.reference@,
                or_empty(text::option_view(action.candidate_id)),
            );
            match request {
                Ok(request) => expected == Ok::<_, ApiErrorModel>(request@),
                Err(error) => expected == Err::<FixRequestModel, _>(error@),
            }
        }),
{
    let block = match find_block(evaluation, action) {
        Ok(block) => block,
        Err(error) => return Err(error),
    };
    let candidate_id = text_or_empty(&action.candidate_id);
    if let Some(candidate) = find_candidate(&block.candidates, candidate_id.as_str()) {
        if let Some(plan) = &candidate.plan {
            return Ok(
                FixRequest {
                    candidate_id,
                    file: candidate.file.clone(),
                    name: docs::clone_text(&candidate.name),
                    plan: plan.clone(),
                },
            );
        }
    }
    let mut message = text::surround(
        candidate_id.as_str(),
        " has no fix for ",
        action.reference.as_str(),
    );
    message.append(" anymore");
    Err(ApiError { status: ApiStatus::Conflict, message })
}

/// The block that a request to ignore one is for, and why
pub open spec fn ignore_spec(
    evaluation: EvaluationModel,
    assembly_id: Seq<char>,
    reference: Seq<char>,
    reason: Seq<char>,
) -> Result<BlockEvalModel, ApiErrorModel> {
    if !ignored::reasons().contains(reason) {
        Err(
            ApiErrorModel {
                status: ApiStatus::BadRequest,
                message: "invalid reason "@ + apply::debug_text(reason),
            },
        )
    } else {
        find_block_spec(evaluation, assembly_id, reference)
    }
}

/// The block that a request to ignore one is for, and why
pub fn ignore_block<'a>(evaluation: &'a Evaluation, action: &BlockAction) -> (request: Result<
    (&'a BlockEval, String),
    ApiError,
>)
    ensures
        ({
            let reason = or_empty(text::option_view(action.reason));
            let expected = ignore_spec(
                evaluation@,
                action.assembly_id@,
                action.reference@,
                reason,
            );
            match request {
                Ok(request) => request.1@ == reason && expected == Ok::<_, ApiErrorModel>(
                    request.0@,
                ),
                Err(error) => expected == Err::<BlockEvalModel, _>(error@),
            }
        }),
{
    let reason = text_or_empty(&action.reason);
    if !ignored::is_ignore_reason(reason.as_str()) {
        let shown = apply::show_debug(reason.as_str());
        let mut message = "invalid reason ".to_owned();
        message.append(shown.as_str());
        return Err(ApiError { status: ApiStatus::BadRequest, message });
    }
    match find_block(evaluation, action) {
        Ok(block) => Ok((block, reason)),
        Err(error) => Err(error),
    }
}

/// The ignored block that a request to stop ignoring one is for
pub open spec fn unignore_spec(
    evaluation: EvaluationModel,
    assembly_id: Seq<char>,
    reference: Seq<char>,
) -> Result<BlockEvalModel, ApiErrorModel> {
    let gone = ApiErrorModel {
        status: ApiStatus::NotFound,
        message: reference + " isn't ignored"@,
    };
    match eval::find_spec(evaluation.assemblies, assembly_id, reference, 0) {
        Some(found) => if found.ignored_as is Some {
            Ok(found)
        } else {
            Err(gone)
        },
        None => Err(gone),
    }
}

/// The ignored block that a request to stop ignoring one is for
pub fn unignore_block<'a>(evaluation: &'a Evaluation, action: &BlockAction) -> (block: Result<
    &'a BlockEval,
    ApiError,
>)
    ensures
        match block {
            Ok(block) => unignore_spec(evaluation@, action.assembly_id@, action.reference@)
                == Ok::<_, ApiErrorModel>(block@),
            Err(error) => unignore_spec(evaluation@, action.assembly_id@, action.reference@)
                == Err::<BlockEvalModel, _>(error@),
        },
{
    if let Some(found) = evaluation.find(
        action.assembly_id.as_str(),
        action.reference.as_str(),
    ) {
        if found.ignored_as.is_some() {
            return Ok(found);
        }
    }
    let mut message = action.reference.clone();
    message.append(" isn't ignored");
    Err(ApiError { status: ApiStatus::NotFound, message })
}

// ---------------------------------------------------------------------------
// Data
// ---------------------------------------------------------------------------

/// What is shown of marked code
#[derive(Debug)]
pub struct CodeRef {
    pub id: String,
    pub file: String,
    pub snippet: Option<String>,
    pub lines: Option<(usize, usize)>,
    pub marker_lines: Vec<usize>,
    pub options: Vec<MarkerOption>,
    pub doc_options: Vec<MarkerOption>,
    pub values: Option<Values>,
}

#[verifier::ext_equal]
pub struct CodeRefModel {
    pub id: Seq<char>,
    pub file: Seq<char>,
    pub snippet: Option<Seq<char>>,
    pub lines: Option<(usize, usize)>,
    pub marker_lines: Seq<usize>,
    pub options: Seq<OptionModel>,
    pub doc_options: Seq<OptionModel>,
    pub values: Option<Seq<(Seq<char>, Seq<char>)>>,
}

/// Placeholders' values, if there are any
pub open spec fn values_view(values: Option<Values>) -> Option<Seq<(Seq<char>, Seq<char>)>> {
    match values {
        Some(values) => Some(values@),
        None => None,
    }
}

impl View for CodeRef {
    type V = CodeRefModel;

    open spec fn view(&self) -> CodeRefModel {
        CodeRefModel {
            id: self.id@,
            file: self.file@,
            snippet: text::option_view(self.snippet),
            lines: self.lines,
            marker_lines: self.marker_lines@,
            options: options::models(self.options@),
            doc_options: options::models(self.doc_options@),
            values: values_view(self.values),
        }
    }
}

pub open spec fn code_ref_models(list: Seq<CodeRef>) -> Seq<CodeRefModel> {
    Seq::new(list.len(), |i: int| list[i]@)
}

/// What is shown of marked code
pub open spec fn code_ref_spec(
    code: CodeModel,
    values: Option<Seq<(Seq<char>, Seq<char>)>>,
) -> CodeRefModel {
    CodeRefModel {
        id: code.id,
        file: code.file,
        snippet: code.section,
        lines: code.lines,
        marker_lines: code.marker_lines,
        options: code.options,
        doc_options: code.doc_options,
        values,
    }
}

/// What is shown of marked code
pub fn code_ref(marked_code: &MarkedCode, values: Option<&Values>) -> (shown: CodeRef)
    ensures
        shown@ == code_ref_spec(
            marked_code@,
            match values {
                Some(values) => Some(values@),
                None => None,
            },
        ),
{
    CodeRef {
        id: marked_code.id.clone(),
        file: marked_code.file.clone(),
        snippet: docs::clone_text(&marked_code.section),
        lines: marked_code.lines,
        marker_lines: candidates::clone_numbers(&marked_code.marker_lines),
        options: options::clone_options(&marked_code.options),
        doc_options: options::clone_options(&marked_code.doc_options),
        values: match values {
            Some(values) => Some(values.clone()),
            None => None,
        },
    }
}

/// What is shown of a block
#[derive(Debug)]
pub struct BlockData {
    pub assembly_id: String,
    pub reference: String,
    pub module: String,
    pub lang: String,
    pub seq: usize,
    pub line: usize,
    pub content: String,
    pub section: Option<String>,
    pub lead: Option<String>,
    pub candidates: Option<Vec<CandidateInfo>>,
    pub formerly: Option<Vec<Formerly>>,
    pub matched_code: Option<Vec<CodeRef>>,
    pub ignored_as: Option<String>,
}

#[verifier::ext_equal]
pub struct BlockDataModel {
    pub assembly_id: Seq<char>,
    pub reference: Seq<char>,
    pub module: Seq<char>,
    pub lang: Seq<char>,
    pub seq: nat,
    pub line: nat,
    pub content: Seq<char>,
    pub section: Option<Seq<char>>,
    pub lead: Option<Seq<char>>,
    pub candidates: Option<Seq<CandidateInfoModel>>,
    pub formerly: Option<Seq<FormerlyModel>>,
    pub matched_code: Option<Seq<CodeRefModel>>,
    pub ignored_as: Option<Seq<char>>,
}

impl View for BlockData {
    type V = BlockDataModel;

    open spec fn view(&self) -> BlockDataModel {
        BlockDataModel {
            assembly_id: self.assembly_id@,
            reference: self.reference@,
            module: self.module@,
            lang: self.lang@,
            seq: self.seq as nat,
            line: self.line as nat,
            content: self.content@,
            section: text::option_view(self.section),
            lead: text::option_view(self.lead),
            candidates: match self.candidates {
                Some(list) => Some(candidates::info_models(list@)),
                None => None,
            },
            formerly: match self.formerly {
                Some(list) => Some(candidates::formerly_models(list@)),
                None => None,
            },
            matched_code: match self.matched_code {
                Some(list) => Some(code_ref_models(list@)),
                None => None,
            },
            ignored_as: text::option_view(self.ignored_as),
        }
    }
}

pub open spec fn block_data_models(list: Seq<BlockData>) -> Seq<BlockDataModel> {
    Seq::new(list.len(), |i: int| list[i]@)
}

/// What every listing shows of a block
pub open spec fn block_data_spec(assembly_id: Seq<char>, found: BlockEvalModel) -> BlockDataModel {
    BlockDataModel {
        assembly_id,
        reference: found.block.reference,
        module: found.block.module,
        lang: found.block.lang,
        seq: found.block.seq,
        line: found.block.line,
        content: found.block.content,
        section: found.block.section,
        lead: found.block.lead,
        candidates: None,
        formerly: None,
        matched_code: None,
        ignored_as: None,
    }
}

/// What every listing shows of a block
pub fn block_data(assembly: &AssemblyEval, found: &BlockEval) -> (data: BlockData)
    ensures
        data@ == block_data_spec(assembly@.assembly.id, found@),
{
    BlockData {
        assembly_id: assembly.assembly.id.clone(),
        reference: found.block.reference.clone(),
        module: found.block.module.clone(),
        lang: found.block.lang.clone(),
        seq: found.block.seq,
        line: found.block.line,
        content: found.block.content.clone(),
        section: docs::clone_text(&found.block.section),
        lead: docs::clone_text(&found.block.lead),
        candidates: None,
        formerly: None,
        matched_code: None,
        ignored_as: None,
    }
}

/// What is shown of the blocks still to resolve
pub open spec fn open_data(assembly_id: Seq<char>, blocks: Seq<BlockEvalModel>) -> Seq<
    BlockDataModel,
>
    decreases blocks.len(),
{
    if blocks.len() == 0 {
        Seq::empty()
    } else {
        let head = open_data(assembly_id, blocks.drop_last());
        let last = blocks.last();
        if last.is_done() {
            head
        } else {
            head.push(
                BlockDataModel {
                    candidates: Some(last.candidates),
                    formerly: Some(last.formerly),
                    ..block_data_spec(assembly_id, last)
                },
            )
        }
    }
}

fn open_blocks(assembly: &AssemblyEval) -> (list: Vec<BlockData>)
    ensures
        block_data_models(list@) == open_data(assembly@.assembly.id, assembly@.blocks),
{
    let ghost id = assembly@.assembly.id;
    let ghost models = assembly@.blocks;
    let mut list: Vec<BlockData> = Vec::new();
    let mut i: usize = 0;
    assert(block_data_models(list@) =~= open_data(id, models.take(0)));
    while i < assembly.blocks.len()
        invariant
            i <= assembly.blocks@.len(),
            id == assembly@.assembly.id,
            models == assembly@.blocks,
            block_data_models(list@) == open_data(id, models.take(i as int)),
        decreases assembly.blocks@.len() - i,
    {
        let ghost before = block_data_models(list@);
        let found = &assembly.blocks[i];
        proof {
            assert(models.take(i + 1).drop_last() =~= models.take(i as int));
            assert(models.take(i + 1).last() == found@);
        }
        if !found.done() {
            let mut data = block_data(assembly, found);
            data.candidates = Some(candidates::clone_infos(&found.candidates));
            data.formerly = Some(candidates::clone_formers(&found.formerly));
            list.push(data);
            assert(block_data_models(list@) =~= before.push(data@));
        }
        i = i + 1;
    }
    assert(models.take(i as int) =~= models);
    list
}

/// The code that a block matches
pub open spec fn matched_refs(marked: Seq<CodeModel>, list: Seq<MatchModel>) -> Result<
    Seq<CodeRefModel>,
    Seq<char>,
>
    decreases list.len(),
{
    if list.len() == 0 {
        Ok(Seq::empty())
    } else {
        match matched_refs(marked, list.drop_last()) {
            Err(error) => Err(error),
            Ok(refs) => match report::marked_spec(marked, list.last().code as int) {
                Err(error) => Err(error),
                Ok(code) => Ok(refs.push(code_ref_spec(code, Some(list.last().values)))),
            },
        }
    }
}

proof fn lemma_matched_refs_error(marked: Seq<CodeModel>, list: Seq<MatchModel>, i: int)
    requires
        0 <= i <= list.len(),
        matched_refs(marked, list.take(i)) is Err,
    ensures
        matched_refs(marked, list) == matched_refs(marked, list.take(i)),
    decreases list.len(),
{
    if i < list.len() {
        assert(list.drop_last().take(i) =~= list.take(i));
        lemma_matched_refs_error(marked, list.drop_last(), i);
    } else {
        assert(list.take(i) =~= list);
    }
}

fn matched_code(evaluation: &Evaluation, list: &Vec<CodeMatch>) -> (refs: Result<
    Vec<CodeRef>,
    String,
>)
    requires
        evaluation.wf(),
    ensures
        match refs {
            Ok(refs) => matched_refs(evaluation@.scan.marked, eval::match_models(list@)) == Ok::<
                _,
                Seq<char>,
            >(code_ref_models(refs@)),
            Err(error) => matched_refs(evaluation@.scan.marked, eval::match_models(list@))
                == Err::<Seq<CodeRefModel>, _>(error@),
        },
{
    let ghost marked = evaluation@.scan.marked;
    let ghost models = eval::match_models(list@);
    let mut refs: Vec<CodeRef> = Vec::new();
    let mut i: usize = 0;
    assert(code_ref_models(refs@) =~= Seq::<CodeRefModel>::empty());
    while i < list.len()
        invariant
            i <= list@.len(),
            evaluation.wf(),
            marked == evaluation@.scan.marked,
            models == eval::match_models(list@),
            matched_refs(marked, models.take(i as int)) == Ok::<_, Seq<char>>(
                code_ref_models(refs@),
            ),
        decreases list@.len() - i,
    {
        let ghost before = code_ref_models(refs@);
        proof {
            assert(models.take(i + 1).drop_last() =~= models.take(i as int));
            assert(models.take(i + 1).last() == list@[i as int]@);
        }
        match evaluation.marked(list[i].code) {
            Err(error) => {
                proof {
                    lemma_matched_refs_error(marked, models, i + 1);
                }
                return Err(error);
            },
            Ok(code) => {
                let shown = code_ref(code, Some(&list[i].values));
                refs.push(shown);
                assert(code_ref_models(refs@) =~= before.push(shown@));
            },
        }
        i = i + 1;
    }
    assert(models.take(i as int) =~= models);
    Ok(refs)
}

/// What is shown of a resolved block
pub open spec fn resolved_block(
    marked: Seq<CodeModel>,
    assembly_id: Seq<char>,
    found: BlockEvalModel,
) -> Result<BlockDataModel, Seq<char>> {
    match lightbulb::in_context(
        matched_refs(marked, found.matches),
        "listing the code "@ + found.block.reference + " matches"@,
    ) {
        Err(error) => Err(error),
        Ok(refs) => Ok(
            BlockDataModel { matched_code: Some(refs), ..block_data_spec(assembly_id, found) },
        ),
    }
}

/// What is shown of the resolved blocks
pub open spec fn resolved_data(
    marked: Seq<CodeModel>,
    assembly_id: Seq<char>,
    blocks: Seq<BlockEvalModel>,
) -> Result<Seq<BlockDataModel>, Seq<char>>
    decreases blocks.len(),
{
    if blocks.len() == 0 {
        Ok(Seq::empty())
    } else {
        match resolved_data(marked, assembly_id, blocks.drop_last()) {
            Err(error) => Err(error),
            Ok(list) => if !blocks.last().is_resolved() {
                Ok(list)
            } else {
                match resolved_block(marked, assembly_id, blocks.last()) {
                    Err(error) => Err(error),
                    Ok(data) => Ok(list.push(data)),
                }
            },
        }
    }
}

proof fn lemma_resolved_data_error(
    marked: Seq<CodeModel>,
    assembly_id: Seq<char>,
    blocks: Seq<BlockEvalModel>,
    i: int,
)
    requires
        0 <= i <= blocks.len(),
        resolved_data(marked, assembly_id, blocks.take(i)) is Err,
    ensures
        resolved_data(marked, assembly_id, blocks) == resolved_data(
            marked,
            assembly_id,
            blocks.take(i),
        ),
    decreases blocks.len(),
{
    if i < blocks.len() {
        assert(blocks.drop_last().take(i) =~= blocks.take(i));
        lemma_resolved_data_error(marked, assembly_id, blocks.drop_last(), i);
    } else {
        assert(blocks.take(i) =~= blocks);
    }
}

fn resolved_block_data(evaluation: &Evaluation, assembly: &AssemblyEval, found: &BlockEval) -> (
    data: Result<BlockData, String>)
    requires
        evaluation.wf(),
    ensures
        match data {
            Ok(data) => resolved_block(
                evaluation@.scan.marked,
                assembly@.assembly.id,
                found@,
            ) == Ok::<_, Seq<char>>(data@),
            Err(error) => resolved_block(
                evaluation@.scan.marked,
                assembly@.assembly.id,
                found@,
            ) == Err::<BlockDataModel, _>(error@),
        },
{
    match matched_code(evaluation, &found.matches) {
        Err(error) => {
            let context = text::surround(
                "listing the code ",
                found.block.reference.as_str(),
                " matches",
            );
            Err(lightbulb::error_in(context.as_str(), error))
        },
        Ok(refs) => {
            let mut data = block_data(assembly, found);
            data.matched_code = Some(refs);
            Ok(data)
        },
    }
}

fn resolved_blocks(evaluation: &Evaluation, assembly: &AssemblyEval) -> (list: Result<
    Vec<BlockData>,
    String,
>)
    requires
        evaluation.wf(),
    ensures
        match list {
            Ok(list) => resolved_data(
                evaluation@.scan.marked,
                assembly@.assembly.id,
                assembly@.blocks,
            ) == Ok::<_, Seq<char>>(block_data_models(list@)),
            Err(error) => resolved_data(
                evaluation@.scan.marked,
                assembly@.assembly.id,
                assembly@.blocks,
            ) == Err::<Seq<BlockDataModel>, _>(error@),
        },
{
    let ghost marked = evaluation@.scan.marked;
    let ghost id = assembly@.assembly.id;
    let ghost models = assembly@.blocks;
    let mut list: Vec<BlockData> = Vec::new();
    let mut i: usize = 0;
    assert(block_data_models(list@) =~= Seq::<BlockDataModel>::empty());
    while i < assembly.blocks.len()
        invariant
            i <= assembly.blocks@.len(),
            evaluation.wf(),
            marked == evaluation@.scan.marked,
            id == assembly@.assembly.id,
            models == assembly@.blocks,
            resolved_data(marked, id, models.take(i as int)) == Ok::<_, Seq<char>>(
                block_data_models(list@),
            ),
        decreases assembly.blocks@.len() - i,
    {
        let ghost before = block_data_models(list@);
        let found = &assembly.blocks[i];
        proof {
            assert(models.take(i + 1).drop_last() =~= models.take(i as int));
            assert(models.take(i + 1).last() == found@);
        }
        if found.resolved() {
            match resolved_block_data(evaluation, assembly, found) {
                Err(error) => {
                    proof {
                        lemma_resolved_data_error(marked, id, models, i + 1);
                    }
                    return Err(error);
                },
                Ok(data) => {
                    list.push(data);
                    assert(block_data_models(list@) =~= before.push(data@));
                },
            }
        }
        i = i + 1;
    }
    assert(models.take(i as int) =~= models);
    Ok(list)
}

/// What is shown of the ignored blocks
pub open spec fn ignored_data(assembly_id: Seq<char>, blocks: Seq<BlockEvalModel>) -> Seq<
    BlockDataModel,
>
    decreases blocks.len(),
{
    if blocks.len() == 0 {
        Seq::empty()
    } else {
        let head = ignored_data(assembly_id, blocks.drop_last());
        let last = blocks.last();
        if last.ignored_as is None {
            head
        } else {
            head.push(
                BlockDataModel {
                    ignored_as: last.ignored_as,
                    ..block_data_spec(assembly_id, last)
                },
            )
        }
    }
}

fn ignored_blocks(assembly: &AssemblyEval) -> (list: Vec<BlockData>)
    ensures
        block_data_models(list@) == ignored_data(assembly@.assembly.id, assembly@.blocks),
{
    let ghost id = assembly@.assembly.id;
    let ghost models = assembly@.blocks;
    let mut list: Vec<BlockData> = Vec::new();
    let mut i: usize = 0;
    assert(block_data_models(list@) =~= ignored_data(id, models.take(0)));
    while i < assembly.blocks.len()
        invariant
            i <= assembly.blocks@.len(),
            id == assembly@.assembly.id,
            models == assembly@.blocks,
            block_data_models(list@) == ignored_data(id, models.take(i as int)),
        decreases assembly.blocks@.len() - i,
    {
        let ghost before = block_data_models(list@);
        let found = &assembly.blocks[i];
        proof {
            assert(models.take(i + 1).drop_last() =~= models.take(i as int));
            assert(models.take(i + 1).last() == found@);
        }
        if found.ignored_as.is_some() {
            let mut data = block_data(assembly, found);
            data.ignored_as = docs::clone_text(&found.ignored_as);
            list.push(data);
            assert(block_data_models(list@) =~= before.push(data@));
        }
        i = i + 1;
    }
    assert(models.take(i as int) =~= models);
    list
}

/// What is shown of an assembly
#[derive(Debug)]
pub struct GuideData {
    pub id: String,
    pub title: String,
    pub blocks: Vec<BlockData>,
    pub resolved: Vec<BlockData>,
    pub ignored: Vec<BlockData>,
}

#[verifier::ext_equal]
pub struct GuideModel {
    pub id: Seq<char>,
    pub title: Seq<char>,
    pub blocks: Seq<BlockDataModel>,
    pub resolved: Seq<BlockDataModel>,
    pub ignored: Seq<BlockDataModel>,
}

impl View for GuideData {
    type V = GuideModel;

    open spec fn view(&self) -> GuideModel {
        GuideModel {
            id: self.id@,
            title: self.title@,
            blocks: block_data_models(self.blocks@),
            resolved: block_data_models(self.resolved@),
            ignored: block_data_models(self.ignored@),
        }
    }
}

pub open spec fn guide_models(list: Seq<GuideData>) -> Seq<GuideModel> {
    Seq::new(list.len(), |i: int| list[i]@)
}

/// An assembly's blocks: to resolve, resolved, and ignored
pub open spec fn guide_spec(marked: Seq<CodeModel>, assembly: AssemblyEvalModel) -> Result<
    GuideModel,
    Seq<char>,
> {
    match resolved_data(marked, assembly.assembly.id, assembly.blocks) {
        Err(error) => Err(error),
        Ok(resolved) => Ok(
            GuideModel {
                id: assembly.assembly.id,
                title: assembly.assembly.title,
                blocks: open_data(assembly.assembly.id, assembly.blocks),
                resolved,
                ignored: ignored_data(assembly.assembly.id, assembly.blocks),
            },
        ),
    }
}

/// An assembly's blocks: to resolve, resolved, and ignored
pub fn guide_data(evaluation: &Evaluation, assembly: &AssemblyEval) -> (guide: Result<
    GuideData,
    String,
>)
    requires
        evaluation.wf(),
    ensures
        match guide {
            Ok(guide) => guide_spec(evaluation@.scan.marked, assembly@) == Ok::<_, Seq<char>>(
                guide@,
            ),
            Err(error) => guide_spec(evaluation@.scan.marked, assembly@) == Err::<GuideModel, _>(
                error@,
            ),
        },
{
    match resolved_blocks(evaluation, assembly) {
        Err(error) => Err(error),
        Ok(resolved) => Ok(
            GuideData {
                id: assembly.assembly.id.clone(),
                title: assembly.assembly.title.clone(),
                blocks: open_blocks(assembly),
                resolved,
                ignored: ignored_blocks(assembly),
            },
        ),
    }
}

/// A block that marked code matches or resembles
#[derive(Debug)]
pub struct BlockLink {
    pub assembly_id: String,
    pub reference: String,
    pub values: Option<Values>,
    /// The bits of a number from 0 to 1
    pub similarity: Option<u64>,
}

#[verifier::ext_equal]
pub struct LinkModel {
    pub assembly_id: Seq<char>,
    pub reference: Seq<char>,
    pub values: Option<Seq<(Seq<char>, Seq<char>)>>,
    pub similarity: Option<u64>,
}

impl View for BlockLink {
    type V = LinkModel;

    open spec fn view(&self) -> LinkModel {
        LinkModel {
            assembly_id: self.assembly_id@,
            reference: self.reference@,
            values: values_view(self.values),
            similarity: self.similarity,
        }
    }
}

pub open spec fn link_models(list: Seq<BlockLink>) -> Seq<LinkModel> {
    Seq::new(list.len(), |i: int| list[i]@)
}

/// The first of a block's matches that is with the code at an index, from the `i`th on
pub open spec fn match_at(list: Seq<MatchModel>, code: int, i: int) -> Option<MatchModel>
    decreases list.len() - i,
{
    if !(0 <= i < list.len()) {
        None
    } else if list[i].code == code {
        Some(list[i])
    } else {
        match_at(list, code, i + 1)
    }
}

fn find_match<'a>(list: &'a Vec<CodeMatch>, code: usize) -> (found: Option<&'a CodeMatch>)
    ensures
        match found {
            Some(found) => match_at(eval::match_models(list@), code as int, 0) == Some(found@),
            None => match_at(eval::match_models(list@), code as int, 0) is None,
        },
{
    let ghost models = eval::match_models(list@);
    let mut i: usize = 0;
    while i < list.len()
        invariant
            i <= list@.len(),
            models == eval::match_models(list@),
            match_at(models, code as int, 0) == match_at(models, code as int, i as int),
        decreases list@.len() - i,
    {
        assert(models[i as int] == list@[i as int]@);
        if list[i].code == code {
            return Some(&list[i]);
        }
        i = i + 1;
    }
    None
}

/// What makes a block one that some code matches or resembles
pub enum LinkTo<'a> {
    /// It matches the code at an index
    Match(usize),
    /// Code with an id is a candidate for it
    Candidate(&'a str),
}

pub enum LinkToModel {
    Match(int),
    Candidate(Seq<char>),
}

impl<'a> View for LinkTo<'a> {
    type V = LinkToModel;

    open spec fn view(&self) -> LinkToModel {
        match self {
            LinkTo::Match(code) => LinkToModel::Match(*code as int),
            LinkTo::Candidate(id) => LinkToModel::Candidate(id@),
        }
    }
}

/// A block as one that some code matches or resembles, if it does
pub open spec fn link_spec(assembly_id: Seq<char>, found: BlockEvalModel, to: LinkToModel) -> Option<
    LinkModel,
> {
    match to {
        LinkToModel::Match(code) => match match_at(found.matches, code, 0) {
            Some(matched) => Some(
                LinkModel {
                    assembly_id,
                    reference: found.block.reference,
                    values: Some(matched.values),
                    similarity: None,
                },
            ),
            None => None,
        },
        LinkToModel::Candidate(id) => match candidate_with(found.candidates, id, 0) {
            Some(candidate) => Some(
                LinkModel {
                    assembly_id,
                    reference: found.block.reference,
                    values: None,
                    similarity: Some(candidate.similarity),
                },
            ),
            None => None,
        },
    }
}

fn link_to(assembly_id: &str, found: &BlockEval, to: &LinkTo<'_>) -> (link: Option<BlockLink>)
    ensures
        match link {
            Some(link) => link_spec(assembly_id@, found@, to@) == Some(link@),
            None => link_spec(assembly_id@, found@, to@) is None,
        },
{
    match to {
        LinkTo::Match(code) => match find_match(&found.matches, *code) {
            Some(matched) => Some(
                BlockLink {
                    assembly_id: assembly_id.to_owned(),
                    reference: found.block.reference.clone(),
                    values: Some(matched.values.clone()),
                    similarity: None,
                },
            ),
            None => None,
        },
        LinkTo::Candidate(id) => match find_candidate(&found.candidates, id) {
            Some(candidate) => Some(
                BlockLink {
                    assembly_id: assembly_id.to_owned(),
                    reference: found.block.reference.clone(),
                    values: None,
                    similarity: Some(candidate.similarity),
                },
            ),
            None => None,
        },
    }
}

/// The blocks of an assembly that some code matches or resembles
pub open spec fn links_in(assembly_id: Seq<char>, blocks: Seq<BlockEvalModel>, to: LinkToModel) -> Seq<
    LinkModel,
>
    decreases blocks.len(),
{
    if blocks.len() == 0 {
        Seq::empty()
    } else {
        let head = links_in(assembly_id, blocks.drop_last(), to);
        match link_spec(assembly_id, blocks.last(), to) {
            Some(link) => head.push(link),
            None => head,
        }
    }
}

/// All the blocks that some code matches or resembles
pub open spec fn links_spec(assemblies: Seq<AssemblyEvalModel>, to: LinkToModel) -> Seq<LinkModel>
    decreases assemblies.len(),
{
    if assemblies.len() == 0 {
        Seq::empty()
    } else {
        links_spec(assemblies.drop_last(), to) + links_in(
            assemblies.last().assembly.id,
            assemblies.last().blocks,
            to,
        )
    }
}

fn add_links(assembly: &AssemblyEval, to: &LinkTo<'_>, links: &mut Vec<BlockLink>)
    ensures
        link_models(final(links)@) == link_models(old(links)@) + links_in(
            assembly@.assembly.id,
            assembly@.blocks,
            to@,
        ),
{
    let ghost id = assembly@.assembly.id;
    let ghost models = assembly@.blocks;
    let ghost start = link_models(links@);
    let mut i: usize = 0;
    assert(start + links_in(id, models.take(0), to@) =~= start);
    while i < assembly.blocks.len()
        invariant
            i <= assembly.blocks@.len(),
            id == assembly@.assembly.id,
            models == assembly@.blocks,
            link_models(links@) == start + links_in(id, models.take(i as int), to@),
        decreases assembly.blocks@.len() - i,
    {
        let ghost before = link_models(links@);
        proof {
            assert(models.take(i + 1).drop_last() =~= models.take(i as int));
            assert(models.take(i + 1).last() == assembly.blocks@[i as int]@);
        }
        if let Some(link) = link_to(assembly.assembly.id.as_str(), &assembly.blocks[i], to) {
            links.push(link);
            proof {
                assert(link_models(links@) =~= before.push(link@));
                let head = links_in(id, models.take(i as int), to@);
                assert((start + head).push(link@) =~= start + head.push(link@));
            }
        }
        i = i + 1;
    }
    assert(models.take(i as int) =~= models);
}

fn links_of(evaluation: &Evaluation, to: &LinkTo<'_>) -> (links: Vec<BlockLink>)
    ensures
        link_models(links@) == links_spec(evaluation@.assemblies, to@),
{
    let ghost models = evaluation@.assemblies;
    let mut links: Vec<BlockLink> = Vec::new();
    let mut i: usize = 0;
    assert(link_models(links@) =~= links_spec(models.take(0), to@));
    while i < evaluation.assemblies.len()
        invariant
            i <= evaluation.assemblies@.len(),
            models == evaluation@.assemblies,
            link_models(links@) == links_spec(models.take(i as int), to@),
        decreases evaluation.assemblies@.len() - i,
    {
        proof {
            assert(models.take(i + 1).drop_last() =~= models.take(i as int));
            assert(models.take(i + 1).last() == evaluation.assemblies@[i as int]@);
        }
        add_links(&evaluation.assemblies[i], to, &mut links);
        i = i + 1;
    }
    assert(models.take(i as int) =~= models);
    links
}

/// The blocks that match the marked code at `code_index`
pub fn matched_by(evaluation: &Evaluation, code_index: usize) -> (links: Vec<BlockLink>)
    ensures
        link_models(links@) == links_spec(
            evaluation@.assemblies,
            LinkToModel::Match(code_index as int),
        ),
{
    links_of(evaluation, &LinkTo::Match(code_index))
}

/// The blocks that `marked_code` is a candidate for
pub fn resembled_by(evaluation: &Evaluation, marked_code: &MarkedCode) -> (links: Vec<BlockLink>)
    ensures
        link_models(links@) == links_spec(
            evaluation@.assemblies,
            LinkToModel::Candidate(marked_code@.id),
        ),
{
    links_of(evaluation, &LinkTo::Candidate(marked_code.id.as_str()))
}

/// Marked code, with the blocks that match or resemble it
#[derive(Debug)]
pub struct CodeData {
    pub code_ref: CodeRef,
    pub matched_by: Vec<BlockLink>,
    pub resembled_by: Vec<BlockLink>,
}

#[verifier::ext_equal]
pub struct CodeDataModel {
    pub code_ref: CodeRefModel,
    pub matched_by: Seq<LinkModel>,
    pub resembled_by: Seq<LinkModel>,
}

impl View for CodeData {
    type V = CodeDataModel;

    open spec fn view(&self) -> CodeDataModel {
        CodeDataModel {
            code_ref: self.code_ref@,
            matched_by: link_models(self.matched_by@),
            resembled_by: link_models(self.resembled_by@),
        }
    }
}

pub open spec fn code_data_models(list: Seq<CodeData>) -> Seq<CodeDataModel> {
    Seq::new(list.len(), |i: int| list[i]@)
}

/// Each marked code, with the blocks that match or resemble it
pub open spec fn code_data_spec(evaluation: EvaluationModel) -> Seq<CodeDataModel> {
    let marked = evaluation.scan.marked;
    Seq::new(
        marked.len(),
        |i: int|
            CodeDataModel {
                code_ref: code_ref_spec(marked[i], None),
                matched_by: links_spec(evaluation.assemblies, LinkToModel::Match(i)),
                resembled_by: links_spec(
                    evaluation.assemblies,
                    LinkToModel::Candidate(marked[i].id),
                ),
            },
    )
}

/// Each marked code, with the blocks that match or resemble it
pub fn code_data(evaluation: &Evaluation) -> (list: Vec<CodeData>)
    ensures
        code_data_models(list@) == code_data_spec(evaluation@),
{
    let marked = &evaluation.scan.marked;
    let ghost expected = code_data_spec(evaluation@);
    let mut list: Vec<CodeData> = Vec::new();
    let mut i: usize = 0;
    while i < marked.len()
        invariant
            i <= marked@.len(),
            *marked == evaluation.scan.marked,
            expected == code_data_spec(evaluation@),
            list@.len() == i,
            forall|k: int| 0 <= k < i ==> (#[trigger] list@[k])@ == expected[k],
        decreases marked@.len() - i,
    {
        assert(evaluation@.scan.marked[i as int] == marked@[i as int]@);
        let data = CodeData {
            code_ref: code_ref(&marked[i], None),
            matched_by: matched_by(evaluation, i),
            resembled_by: resembled_by(evaluation, &marked[i]),
        };
        list.push(data);
        i = i + 1;
    }
    assert(code_data_models(list@) =~= expected);
    list
}

/// Everything the review UI shows
#[derive(Debug)]
pub struct ReportData {
    pub guides: Vec<GuideData>,
    pub total_blocks: usize,
    /// (reason, content)
    pub stale_ignored: Vec<(String, String)>,
    pub marked_code: Vec<CodeData>,
    pub problems: Vec<Problem>,
    /// Where the docs are, for people
    pub docs_location: String,
    pub links: Links,
}

#[verifier::ext_equal]
pub struct ReportModel {
    pub guides: Seq<GuideModel>,
    pub total_blocks: nat,
    pub stale_ignored: Seq<(Seq<char>, Seq<char>)>,
    pub marked_code: Seq<CodeDataModel>,
    pub problems: Seq<ProblemModel>,
    pub docs_location: Seq<char>,
    pub links: LinksModel,
}

impl View for ReportData {
    type V = ReportModel;

    open spec fn view(&self) -> ReportModel {
        ReportModel {
            guides: guide_models(self.guides@),
            total_blocks: self.total_blocks as nat,
            stale_ignored: repo::pair_views(self.stale_ignored@),
            marked_code: code_data_models(self.marked_code@),
            problems: repo::problem_models(self.problems@),
            docs_location: self.docs_location@,
            links: self.links@,
        }
    }
}

/// What is shown of the assemblies
pub open spec fn guides_spec(marked: Seq<CodeModel>, assemblies: Seq<AssemblyEvalModel>) -> Result<
    Seq<GuideModel>,
    Seq<char>,
>
    decreases assemblies.len(),
{
    if assemblies.len() == 0 {
        Ok(Seq::empty())
    } else {
        match guides_spec(marked, assemblies.drop_last()) {
            Err(error) => Err(error),
            Ok(guides) => match lightbulb::in_context(
                guide_spec(marked, assemblies.last()),
                "reporting on "@ + assemblies.last().assembly.id,
            ) {
                Err(error) => Err(error),
                Ok(guide) => Ok(guides.push(guide)),
            },
        }
    }
}

proof fn lemma_guides_error(marked: Seq<CodeModel>, assemblies: Seq<AssemblyEvalModel>, i: int)
    requires
        0 <= i <= assemblies.len(),
        guides_spec(marked, assemblies.take(i)) is Err,
    ensures
        guides_spec(marked, assemblies) == guides_spec(marked, assemblies.take(i)),
    decreases assemblies.len(),
{
    if i < assemblies.len() {
        assert(assemblies.drop_last().take(i) =~= assemblies.take(i));
        lemma_guides_error(marked, assemblies.drop_last(), i);
    } else {
        assert(assemblies.take(i) =~= assemblies);
    }
}

fn all_guides(evaluation: &Evaluation) -> (guides: Result<Vec<GuideData>, String>)
    requires
        evaluation.wf(),
    ensures
        match guides {
            Ok(guides) => guides_spec(evaluation@.scan.marked, evaluation@.assemblies) == Ok::<
                _,
                Seq<char>,
            >(guide_models(guides@)),
            Err(error) => guides_spec(evaluation@.scan.marked, evaluation@.assemblies) == Err::<
                Seq<GuideModel>,
                _,
            >(error@),
        },
{
    let ghost marked = evaluation@.scan.marked;
    let ghost models = evaluation@.assemblies;
    let mut guides: Vec<GuideData> = Vec::new();
    let mut i: usize = 0;
    assert(guide_models(guides@) =~= Seq::<GuideModel>::empty());
    while i < evaluation.assemblies.len()
        invariant
            i <= evaluation.assemblies@.len(),
            evaluation.wf(),
            marked == evaluation@.scan.marked,
            models == evaluation@.assemblies,
            guides_spec(marked, models.take(i as int)) == Ok::<_, Seq<char>>(
                guide_models(guides@),
            ),
        decreases evaluation.assemblies@.len() - i,
    {
        let ghost before = guide_models(guides@);
        let assembly = &evaluation.assemblies[i];
        proof {
            assert(models.take(i + 1).drop_last() =~= models.take(i as int));
            assert(models.take(i + 1).last() == assembly@);
        }
        match guide_data(evaluation, assembly) {
            Err(error) => {
                proof {
                    lemma_guides_error(marked, models, i + 1);
                }
                let mut context = "reporting on ".to_owned();
                context.append(assembly.assembly.id.as_str());
                return Err(lightbulb::error_in(context.as_str(), error));
            },
            Ok(guide) => {
                guides.push(guide);
                assert(guide_models(guides@) =~= before.push(guide@));
            },
        }
        i = i + 1;
    }
    assert(models.take(i as int) =~= models);
    Ok(guides)
}

fn clone_pairs(list: &Vec<(String, String)>) -> (copy: Vec<(String, String)>)
    ensures
        repo::pair_views(copy@) == repo::pair_views(list@),
{
    let mut copy: Vec<(String, String)> = Vec::new();
    let mut i: usize = 0;
    while i < list.len()
        invariant
            i <= list@.len(),
            copy@.len() == i,
            forall|k: int|
                0 <= k < i ==> (#[trigger] copy@[k]).0@ == list@[k].0@ && copy@[k].1@
                    == list@[k].1@,
        decreases list@.len() - i,
    {
        copy.push((list[i].0.clone(), list[i].1.clone()));
        i = i + 1;
    }
    assert(repo::pair_views(copy@) =~= repo::pair_views(list@));
    copy
}

/// Everything the review UI shows of an evaluation
pub open spec fn report_spec(
    docs_location: Seq<char>,
    links: LinksModel,
    evaluation: EvaluationModel,
) -> Result<ReportModel, Seq<char>> {
    match guides_spec(evaluation.scan.marked, evaluation.assemblies) {
        Err(error) => Err(error),
        Ok(guides) => Ok(
            ReportModel {
                guides,
                total_blocks: eval::all_blocks(evaluation.assemblies).len(),
                stale_ignored: evaluation.stale_ignored,
                marked_code: code_data_spec(evaluation),
                problems: evaluation.scan.problems,
                docs_location,
                links,
            },
        ),
    }
}

/// Everything the review UI shows of an evaluation
pub fn build_report(docs_location: &str, links: &Links, evaluation: &Evaluation) -> (data: Result<
    ReportData,
    String,
>)
    requires
        evaluation.wf(),
    ensures
        match data {
            Ok(data) => report_spec(docs_location@, links@, evaluation@) == Ok::<_, Seq<char>>(
                data@,
            ),
            Err(error) => report_spec(docs_location@, links@, evaluation@) == Err::<
                ReportModel,
                _,
            >(error@),
        },
{
    match all_guides(evaluation) {
        Err(error) => Err(error),
        Ok(guides) => {
            let blocks = eval::blocks_of(&evaluation.assemblies);
            assert(blocks@.len() == eval::ref_models(blocks@).len());
            Ok(
                ReportData {
                    guides,
                    total_blocks: blocks.len(),
                    stale_ignored: clone_pairs(&evaluation.stale_ignored),
                    marked_code: code_data(evaluation),
                    problems: report::clone_problems(&evaluation.scan.problems),
                    docs_location: docs_location.to_owned(),
                    links: links.clone(),
                },
            )
        },
    }
}

// ---------------------------------------------------------------------------
// Laws
// ---------------------------------------------------------------------------

/// No name that can be asked for as a module leads out of the directory of modules: it
/// has no `/` in it
pub proof fn law_modules_stay_inside(module: Seq<char>)
    requires
        text::all_of(module, CharClass::Module),
    ensures
        !module.contains('/'),
{
    if module.contains('/') {
        let i = choose|i: int| 0 <= i < module.len() && module[i] == '/';
        assert(CharClass::Module.has(module[i]));
    }
}

/// No file that can be asked for is outside the repo: its path doesn't start at the root,
/// and no part of it goes up
pub proof fn law_files_stay_inside(path: Seq<char>)
    requires
        is_plain_relative_spec(path),
    ensures
        path.len() > 0 ==> path[0] != '/',
        !lines::split(path, '/').contains(".."@),
{
    if path.len() > 0 && path[0] == '/' {
        assert(!path.take(0).contains('/'));
        lines::lemma_split_first(path, '/', 0);
        assert(lines::split(path, '/')[0] == path.take(0));
    }
}

} // verus!
