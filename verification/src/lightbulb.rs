//! Lightbulbs: simple repo-side changes that make candidate code match a doc
//! block exactly: marking a file or part of one, adding or removing a leading
//! `---` or trailing newlines, and, when the doc's shell prompts are in the
//! way, adding `doc strip-line-prefix: "$ "` to the marker. Anything more
//! involved is left to a person.

use crate::apply;
use crate::bytes;
use crate::docs::Block;
use crate::lines;
use crate::markers;
use crate::markers::Markers;
use crate::markers::MarkersModel;
use crate::markers::SectionModel;
use crate::matching;
use crate::numbers;
use crate::options;
use crate::options::MarkerOption;
use crate::options::OptionModel;
use crate::options::OptionSide;
use crate::options::ValueModel;
use crate::repo;
use crate::repo::CodeModel;
use crate::repo::MarkedCode;
use crate::text;
use crate::text::CharClass;
use vstd::prelude::*;

verus! {

/// A change to a repo file
#[derive(Debug)]
pub enum LightbulbFix {
    MarkFile,
    MarkSection { name: String, first_line: usize, line_count: usize, options: Vec<MarkerOption> },
    RemoveDashes,
    AddDashes,
    TrailingNewline { wanted_newlines: usize, had_newlines: usize },
}

pub enum FixModel {
    MarkFile,
    MarkSection {
        name: Seq<char>,
        first_line: nat,
        line_count: nat,
        options: Seq<OptionModel>,
    },
    RemoveDashes,
    AddDashes,
    TrailingNewline { wanted_newlines: nat, had_newlines: nat },
}

impl View for LightbulbFix {
    type V = FixModel;

    open spec fn view(&self) -> FixModel {
        match self {
            LightbulbFix::MarkFile => FixModel::MarkFile,
            LightbulbFix::MarkSection {
                name,
                first_line,
                line_count,
                options,
            } => FixModel::MarkSection {
                name: name@,
                first_line: *first_line as nat,
                line_count: *line_count as nat,
                options: options::models(options@),
            },
            LightbulbFix::RemoveDashes => FixModel::RemoveDashes,
            LightbulbFix::AddDashes => FixModel::AddDashes,
            LightbulbFix::TrailingNewline {
                wanted_newlines,
                had_newlines,
            } => FixModel::TrailingNewline {
                wanted_newlines: *wanted_newlines as nat,
                had_newlines: *had_newlines as nat,
            },
        }
    }
}

impl Clone for LightbulbFix {
    fn clone(&self) -> (copy: Self)
        ensures
            copy@ == self@,
    {
        match self {
            LightbulbFix::MarkFile => LightbulbFix::MarkFile,
            LightbulbFix::MarkSection { name, first_line, line_count, options } => {
                LightbulbFix::MarkSection {
                    name: name.clone(),
                    first_line: *first_line,
                    line_count: *line_count,
                    options: options::clone_options(options),
                }
            },
            LightbulbFix::RemoveDashes => LightbulbFix::RemoveDashes,
            LightbulbFix::AddDashes => LightbulbFix::AddDashes,
            LightbulbFix::TrailingNewline { wanted_newlines, had_newlines } => {
                LightbulbFix::TrailingNewline {
                    wanted_newlines: *wanted_newlines,
                    had_newlines: *had_newlines,
                }
            },
        }
    }
}

pub open spec fn fix_models(fixes: Seq<LightbulbFix>) -> Seq<FixModel> {
    Seq::new(fixes.len(), |i: int| fixes[i]@)
}

fn clone_fixes(fixes: &Vec<LightbulbFix>) -> (copy: Vec<LightbulbFix>)
    ensures
        fix_models(copy@) == fix_models(fixes@),
{
    let mut copy: Vec<LightbulbFix> = Vec::new();
    let mut i: usize = 0;
    while i < fixes.len()
        invariant
            i <= fixes@.len(),
            copy@.len() == i,
            forall|k: int| 0 <= k < i ==> (#[trigger] copy@[k])@ == fixes@[k]@,
        decreases fixes@.len() - i,
    {
        copy.push(fixes[i].clone());
        i = i + 1;
    }
    assert(fix_models(copy@) =~= fix_models(fixes@));
    copy
}

/// The changes that make some code match a doc block
#[derive(Debug)]
pub struct LightbulbPlan {
    pub fixes: Vec<LightbulbFix>,
    /// Options for the doc side, added to the marker
    pub doc_options: Vec<MarkerOption>,
}

pub struct PlanModel {
    pub fixes: Seq<FixModel>,
    pub doc_options: Seq<OptionModel>,
}

impl View for LightbulbPlan {
    type V = PlanModel;

    open spec fn view(&self) -> PlanModel {
        PlanModel {
            fixes: fix_models(self.fixes@),
            doc_options: options::models(self.doc_options@),
        }
    }
}

impl Clone for LightbulbPlan {
    fn clone(&self) -> (copy: Self)
        ensures
            copy@ == self@,
    {
        LightbulbPlan {
            fixes: clone_fixes(&self.fixes),
            doc_options: options::clone_options(&self.doc_options),
        }
    }
}

/// What a candidate is: marked code, or an unmarked file
pub struct Candidate<'a> {
    pub file: &'a str,
    pub section: Option<&'a str>,
    /// Marked code with its options applied; None for an unmarked file
    pub marked_code: Option<&'a MarkedCode>,
    pub file_text: &'a str,
    pub markers: &'a Markers,
}

pub struct CandidateModel {
    pub file: Seq<char>,
    pub marked_code: Option<CodeModel>,
    pub file_text: Seq<char>,
    pub markers: MarkersModel,
}

impl<'a> View for Candidate<'a> {
    type V = CandidateModel;

    open spec fn view(&self) -> CandidateModel {
        CandidateModel {
            file: self.file@,
            marked_code: match self.marked_code {
                Some(code) => Some(code@),
                None => None,
            },
            file_text: self.file_text@,
            markers: self.markers@,
        }
    }
}

/// `doc strip-line-prefix: "$ "`
pub open spec fn strip_prompt_spec() -> OptionModel {
    OptionModel {
        key: "strip-line-prefix"@,
        value: Some(ValueModel::Text("$ "@)),
        side: OptionSide::Doc,
    }
}

pub fn strip_prompt_option() -> (option: MarkerOption)
    ensures
        option@ == strip_prompt_spec(),
{
    MarkerOption::text("strip-line-prefix", "$ ", OptionSide::Doc)
}

// ---------------------------------------------------------------------------
// Leading dashes and trailing newlines
// ---------------------------------------------------------------------------

/// Code with the leading YAML document marker made to agree with the doc
pub open spec fn dashes_spec(doc: Seq<char>, code: Seq<char>) -> (Seq<char>, Option<FixModel>) {
    let dashes = "---\n"@;
    if !dashes.is_prefix_of(doc) && dashes.is_prefix_of(code) {
        (code.skip(dashes.len() as int), Some(FixModel::RemoveDashes))
    } else if dashes.is_prefix_of(doc) && !dashes.is_prefix_of(code) {
        (dashes + code, Some(FixModel::AddDashes))
    } else {
        (code, None)
    }
}

pub open spec fn fix_view(fix: Option<LightbulbFix>) -> Option<FixModel> {
    match fix {
        Some(fix) => Some(fix@),
        None => None,
    }
}

/// The leading YAML document marker, made to agree with the doc
pub fn normalize_dashes(doc_code: &str, repo_code: &str) -> (result: (
    String,
    Option<LightbulbFix>,
))
    ensures
        dashes_spec(doc_code@, repo_code@) == (result.0@, fix_view(result.1)),
{
    let doc_has_dashes = text::starts_with(doc_code, "---\n");
    let stripped = text::strip_prefix(repo_code, "---\n");
    match stripped {
        Some(without_dashes) => if !doc_has_dashes {
            (without_dashes, Some(LightbulbFix::RemoveDashes))
        } else {
            (repo_code.to_owned(), None)
        },
        None => if doc_has_dashes {
            let mut with_dashes = "---\n".to_owned();
            with_dashes.append(repo_code);
            (with_dashes, Some(LightbulbFix::AddDashes))
        } else {
            (repo_code.to_owned(), None)
        },
    }
}

/// How many newlines `s` ends with
pub open spec fn newlines_at_end(s: Seq<char>) -> nat {
    text::end_span(s, CharClass::Newline)
}

/// The number of newlines `text` ends with
pub fn trailing_newlines(text: &str) -> (count: usize)
    ensures
        count == newlines_at_end(text@),
{
    let chars = text::chars_of(text);
    proof {
        text::lemma_end_span(chars@, CharClass::Newline);
    }
    chars.len() - text::end_span_start(&chars, CharClass::Newline)
}

/// `count` newlines
pub open spec fn newlines(count: nat) -> Seq<char> {
    Seq::new(count, |i: int| '\n')
}

/// `s` with the newlines it ends with made `count`
pub open spec fn with_newlines(s: Seq<char>, count: nat) -> Seq<char> {
    text::before_end_run(s, CharClass::Newline) + newlines(count)
}

/// `s` with the newlines it ends with made `count`
pub fn set_newlines(s: &str, count: usize) -> (result: String)
    ensures
        result@ == with_newlines(s@, count as nat),
{
    let mut result = text::trim_end(s, CharClass::Newline);
    let ghost start = result@;
    let mut i: usize = 0;
    assert(start + newlines(0) =~= start);
    while i < count
        invariant
            i <= count,
            result@ == start + newlines(i as nat),
        decreases count - i,
    {
        result.push('\n');
        assert((start + newlines(i as nat)).push('\n') =~= start + newlines((i + 1) as nat));
        i = i + 1;
    }
    result
}

/// Code with its trailing newlines made to agree with the doc
pub open spec fn newlines_spec(doc: Seq<char>, code: Seq<char>) -> (Seq<char>, Option<FixModel>) {
    if newlines_at_end(doc) == newlines_at_end(code) {
        (code, None)
    } else {
        (
            with_newlines(code, newlines_at_end(doc)),
            Some(
                FixModel::TrailingNewline {
                    wanted_newlines: newlines_at_end(doc),
                    had_newlines: newlines_at_end(code),
                },
            ),
        )
    }
}

/// Trailing newlines, made to agree with the doc
pub fn normalize_trailing_newlines(doc_code: &str, repo_code: String) -> (result: (
    String,
    Option<LightbulbFix>,
))
    ensures
        newlines_spec(doc_code@, repo_code@) == (result.0@, fix_view(result.1)),
{
    let doc_newlines = trailing_newlines(doc_code);
    let repo_newlines = trailing_newlines(repo_code.as_str());
    if doc_newlines == repo_newlines {
        return (repo_code, None);
    }
    let fixed_code = set_newlines(repo_code.as_str(), doc_newlines);
    (
        fixed_code,
        Some(
            LightbulbFix::TrailingNewline {
                wanted_newlines: doc_newlines,
                had_newlines: repo_newlines,
            },
        ),
    )
}

/// A fix, if there is one
pub open spec fn as_list(fix: Option<FixModel>) -> Seq<FixModel> {
    match fix {
        Some(fix) => seq![fix],
        None => Seq::empty(),
    }
}

/// Code with its leading YAML document marker and trailing newlines made to agree with
/// the doc, and the fixes that do so
pub open spec fn normalize_spec(doc: Seq<char>, code: Seq<char>) -> (Seq<char>, Seq<FixModel>) {
    let (dashed, dashes_fix) = dashes_spec(doc, code);
    let (normalized, newlines_fix) = newlines_spec(doc, dashed);
    (normalized, as_list(dashes_fix) + as_list(newlines_fix))
}

/// Leading YAML document marker and trailing newlines, made to agree with the doc
pub fn normalize(doc_code: &str, repo_code: &str) -> (result: (String, Vec<LightbulbFix>))
    ensures
        normalize_spec(doc_code@, repo_code@) == (result.0@, fix_models(result.1@)),
{
    let (dashes_normalized, dashes_fix) = normalize_dashes(doc_code, repo_code);
    let (normalized, newlines_fix) = normalize_trailing_newlines(doc_code, dashes_normalized);
    let ghost first = fix_view(dashes_fix);
    let ghost second = fix_view(newlines_fix);
    let mut fixes: Vec<LightbulbFix> = Vec::new();
    if let Some(fix) = dashes_fix {
        fixes.push(fix);
    }
    if let Some(fix) = newlines_fix {
        fixes.push(fix);
    }
    assert(fix_models(fixes@) =~= as_list(first) + as_list(second));
    (normalized, fixes)
}

// ---------------------------------------------------------------------------
// Plans
// ---------------------------------------------------------------------------

/// The fixes that make code match a doc: those decided before, and those that make
/// its leading dashes and trailing newlines agree; none when that changes nothing, or
/// still doesn't make it match
pub open spec fn content_plan_spec(
    doc: Seq<char>,
    code: Seq<char>,
    prior: Seq<FixModel>,
    can_normalize: bool,
    placeholders: Seq<Seq<char>>,
) -> Result<Option<Seq<FixModel>>, Seq<char>> {
    let (normalized, fixes) = if can_normalize {
        normalize_spec(doc, code)
    } else {
        (code, Seq::empty())
    };
    if prior.len() == 0 && fixes.len() == 0 {
        Ok(None)
    } else {
        match matching::match_content_spec(normalized, placeholders, doc) {
            Err(error) => Err("matching the fixed code against the doc: "@ + error),
            Ok(None) => Ok(None),
            Ok(Some(_)) => Ok(Some(prior + fixes)),
        }
    }
}

/// Whether `result` is the outcome `expected`
pub open spec fn planned_as(
    expected: Result<Option<Seq<FixModel>>, Seq<char>>,
    result: Result<Option<Vec<LightbulbFix>>, String>,
) -> bool {
    match result {
        Ok(Some(fixes)) => expected == Ok::<_, Seq<char>>(Some(fix_models(fixes@))),
        Ok(None) => expected == Ok::<_, Seq<char>>(None::<Seq<FixModel>>),
        Err(error) => expected == Err::<Option<Seq<FixModel>>, _>(error@),
    }
}

pub fn content_plan(
    doc_code: &str,
    repo_code: &str,
    prior_fixes: Vec<LightbulbFix>,
    can_normalize: bool,
    placeholders: &Vec<String>,
) -> (result: Result<Option<Vec<LightbulbFix>>, String>)
    ensures
        planned_as(
            content_plan_spec(
                doc_code@,
                repo_code@,
                fix_models(prior_fixes@),
                can_normalize,
                text::views(placeholders@),
            ),
            result,
        ),
{
    let (normalized, normalize_fixes) = if can_normalize {
        normalize(doc_code, repo_code)
    } else {
        let none: Vec<LightbulbFix> = Vec::new();
        assert(fix_models(none@) =~= Seq::empty());
        (repo_code.to_owned(), none)
    };
    let ghost prior = fix_models(prior_fixes@);
    let ghost added = fix_models(normalize_fixes@);
    assert(prior.len() == prior_fixes@.len());
    assert(added.len() == normalize_fixes@.len());
    if prior_fixes.len() == 0 && normalize_fixes.len() == 0 {
        return Ok(None);
    }
    match matching::match_content(normalized.as_str(), placeholders, doc_code) {
        Err(error) => {
            let mut message = "matching the fixed code against the doc: ".to_owned();
            message.append(error.as_str());
            Err(message)
        },
        Ok(None) => Ok(None),
        Ok(Some(_)) => {
            let mut fixes = prior_fixes;
            let mut more = normalize_fixes;
            fixes.append(&mut more);
            assert(fix_models(fixes@) =~= prior + added);
            Ok(Some(fixes))
        },
    }
}

/// The `k`th name to try for a section after a module: the module's, then with a
/// number from 2 on
pub open spec fn tried_name(module: Seq<char>, k: nat) -> Seq<char> {
    if k <= 1 {
        module
    } else {
        module + "-"@ + numbers::decimal_spec(k)
    }
}

/// Names tried are distinct
proof fn lemma_tried_distinct(module: Seq<char>, first: nat, second: nat)
    requires
        1 <= first < second,
    ensures
        tried_name(module, first) != tried_name(module, second),
{
    reveal_strlit("-");
    let base = module + "-"@;
    let digits = numbers::decimal_spec(second);
    if first == 1 {
        assert(tried_name(module, second).len() > module.len());
    } else if tried_name(module, first) == tried_name(module, second) {
        let others = numbers::decimal_spec(first);
        assert((base + digits).skip(base.len() as int) =~= digits);
        assert((base + others).skip(base.len() as int) =~= others);
        numbers::lemma_decimal_distinct(first, second);
    }
}

/// No more names can be taken than there are
proof fn lemma_tried_bound(module: Seq<char>, names: Seq<Seq<char>>, k: nat)
    requires
        forall|j: nat| 1 <= j <= k ==> names.contains(#[trigger] tried_name(module, j)),
    ensures
        k <= names.len(),
{
    let tried = Seq::new(k, |i: int| tried_name(module, (i + 1) as nat));
    assert forall|i: int, j: int|
        0 <= i < tried.len() && 0 <= j < tried.len() && i != j implies tried[i] != tried[j] by {
        if i < j {
            lemma_tried_distinct(module, (i + 1) as nat, (j + 1) as nat);
        } else {
            lemma_tried_distinct(module, (j + 1) as nat, (i + 1) as nat);
        }
    }
    assert(tried.no_duplicates());
    tried.unique_seq_to_set();
    names.lemma_cardinality_of_set();
    assert(tried.to_set().subset_of(names.to_set())) by {
        assert forall|name: Seq<char>| tried.to_set().contains(name) implies names.to_set().contains(
            name,
        ) by {
            let i = choose|i: int| 0 <= i < tried.len() && tried[i] == name;
            assert(names.contains(tried_name(module, (i + 1) as nat)));
        }
    }
    vstd::set_lib::lemma_len_subset(tried.to_set(), names.to_set());
}

/// Whether `name` is the first of the names tried that none of `names` is
pub open spec fn is_first_unused(
    names: Seq<Seq<char>>,
    module: Seq<char>,
    name: Seq<char>,
) -> bool {
    exists|k: nat|
        1 <= k && name == #[trigger] tried_name(module, k) && !names.contains(name) && (forall|
            j: nat,
        |
            1 <= j < k ==> names.contains(#[trigger] tried_name(module, j)))
}

/// The first of the names tried that none of `names` is
pub open spec fn unused_name(names: Seq<Seq<char>>, module: Seq<char>) -> Seq<char> {
    choose|name: Seq<char>| is_first_unused(names, module, name)
}

/// There is only one first unused name
pub proof fn lemma_unused_name(names: Seq<Seq<char>>, module: Seq<char>, name: Seq<char>)
    requires
        is_first_unused(names, module, name),
    ensures
        unused_name(names, module) == name,
{
    let other = unused_name(names, module);
    let k = choose|k: nat|
        1 <= k && name == #[trigger] tried_name(module, k) && !names.contains(name) && (forall|
            j: nat,
        |
            1 <= j < k ==> names.contains(#[trigger] tried_name(module, j)));
    let m = choose|k: nat|
        1 <= k && other == #[trigger] tried_name(module, k) && !names.contains(other) && (forall|
            j: nat,
        |
            1 <= j < k ==> names.contains(#[trigger] tried_name(module, j)));
    if k < m {
        assert(names.contains(tried_name(module, k)));
    } else if m < k {
        assert(names.contains(tried_name(module, m)));
    }
}

/// A section name, after the block's module, that no section in `markers` has yet
pub fn unused_section_name(markers: &Markers, module: &str) -> (name: String)
    ensures
        name@ == unused_name(markers::section_names(markers@.sections), module@),
        is_first_unused(markers::section_names(markers@.sections), module@, name@),
{
    let ghost names = markers::section_names(markers@.sections);
    let mut name = module.to_owned();
    let mut k: u128 = 1;
    loop
        invariant
            1 <= k,
            names == markers::section_names(markers@.sections),
            names.len() == markers.sections@.len(),
            name@ == tried_name(module@, k as nat),
            forall|j: nat| 1 <= j < k ==> names.contains(#[trigger] tried_name(module@, j)),
        decreases names.len() + 1 - k,
    {
        proof {
            markers::lemma_index_of(names, name@);
        }
        if markers.section(name.as_str()).is_none() {
            proof {
                assert(is_first_unused(names, module@, name@));
                lemma_unused_name(names, module@, name@);
            }
            return name;
        }
        proof {
            assert forall|j: nat| 1 <= j <= k implies names.contains(
                #[trigger] tried_name(module@, j),
            ) by {}
            lemma_tried_bound(module@, names, k as nat);
            assert(markers.sections.len() <= usize::MAX);
        }
        k = k + 1;
        let number = numbers::decimal_wide(k);
        name = text::surround(module, "-", number.as_str());
    }
}

/// Whether a line is a comment
pub open spec fn is_comment_spec(line: Seq<char>) -> bool {
    "#"@.is_prefix_of(text::after_run(line, CharClass::White))
}

pub fn is_comment(line: &str) -> (found: bool)
    ensures
        found == is_comment_spec(line@),
{
    let unindented = text::trim_start(line, CharClass::White);
    text::starts_with(unindented.as_str(), "#")
}

/// Whether some line is a comment
pub open spec fn any_comment(list: Seq<Seq<char>>) -> bool {
    exists|i: int| 0 <= i < list.len() && is_comment_spec(#[trigger] list[i])
}

fn has_comment(list: &Vec<String>) -> (found: bool)
    ensures
        found == any_comment(text::views(list@)),
{
    let ghost views = text::views(list@);
    let mut i: usize = 0;
    while i < list.len()
        invariant
            i <= list@.len(),
            views == text::views(list@),
            forall|j: int| 0 <= j < i ==> !is_comment_spec(#[trigger] views[j]),
        decreases list@.len() - i,
    {
        if is_comment(list[i].as_str()) {
            assert(is_comment_spec(views[i as int]));
            return true;
        }
        i = i + 1;
    }
    false
}

/// The indexes of the lines to compare: all, or all but comments
pub open spec fn compared(list: Seq<Seq<char>>, skip_comments: bool) -> Seq<int>
    decreases list.len(),
{
    if list.len() == 0 {
        Seq::empty()
    } else if skip_comments && is_comment_spec(list.last()) {
        compared(list.drop_last(), skip_comments)
    } else {
        compared(list.drop_last(), skip_comments).push(list.len() - 1)
    }
}

pub proof fn lemma_compared(list: Seq<Seq<char>>, skip_comments: bool)
    ensures
        compared(list, skip_comments).len() <= list.len(),
        forall|i: int|
            0 <= i < compared(list, skip_comments).len() ==> 0 <= #[trigger] compared(
                list,
                skip_comments,
            )[i] < list.len(),
        forall|i: int, j: int|
            0 <= i < j < compared(list, skip_comments).len() ==> #[trigger] compared(
                list,
                skip_comments,
            )[i] < #[trigger] compared(list, skip_comments)[j],
    decreases list.len(),
{
    if list.len() > 0 {
        lemma_compared(list.drop_last(), skip_comments);
    }
}

fn compared_indexes(list: &Vec<String>, skip_comments: bool) -> (indexes: Vec<usize>)
    ensures
        indexes@.len() == compared(text::views(list@), skip_comments).len(),
        forall|i: int|
            0 <= i < indexes@.len() ==> #[trigger] indexes@[i] == compared(
                text::views(list@),
                skip_comments,
            )[i],
{
    let ghost views = text::views(list@);
    let mut indexes: Vec<usize> = Vec::new();
    let mut i: usize = 0;
    while i < list.len()
        invariant
            i <= list@.len(),
            views == text::views(list@),
            indexes@.len() == compared(views.take(i as int), skip_comments).len(),
            forall|k: int|
                0 <= k < indexes@.len() ==> #[trigger] indexes@[k] == compared(
                    views.take(i as int),
                    skip_comments,
                )[k],
        decreases list@.len() - i,
    {
        proof {
            assert(views.take(i + 1).drop_last() =~= views.take(i as int));
            assert(views.take(i + 1).last() == list@[i as int]@);
        }
        if !(skip_comments && is_comment(list[i].as_str())) {
            indexes.push(i);
        }
        i = i + 1;
    }
    assert(views.take(i as int) =~= views);
    indexes
}

/// Whether the lines compared from the `p`th on are the doc's
pub open spec fn window_at(
    list: Seq<Seq<char>>,
    indexes: Seq<int>,
    doc_lines: Seq<Seq<char>>,
    p: int,
) -> bool {
    &&& 0 <= p <= indexes.len() - doc_lines.len()
    &&& forall|k: int| 0 <= k < doc_lines.len() ==> list[indexes[p + k]] == #[trigger] doc_lines[k]
}

/// The first place from the `p`th on where the lines compared are the doc's
pub open spec fn first_window(
    list: Seq<Seq<char>>,
    indexes: Seq<int>,
    doc_lines: Seq<Seq<char>>,
    p: int,
) -> Option<int>
    decreases indexes.len() - p,
{
    if p + doc_lines.len() > indexes.len() || p >= indexes.len() {
        None
    } else if window_at(list, indexes, doc_lines, p) {
        Some(p)
    } else {
        first_window(list, indexes, doc_lines, p + 1)
    }
}

pub proof fn lemma_first_window(
    list: Seq<Seq<char>>,
    indexes: Seq<int>,
    doc_lines: Seq<Seq<char>>,
    p: int,
)
    ensures
        first_window(list, indexes, doc_lines, p) matches Some(found) ==> p <= found && window_at(
            list,
            indexes,
            doc_lines,
            found,
        ),
    decreases indexes.len() - p,
{
    if p + doc_lines.len() <= indexes.len() && p < indexes.len() && !window_at(
        list,
        indexes,
        doc_lines,
        p,
    ) {
        lemma_first_window(list, indexes, doc_lines, p + 1);
    }
}

fn find_window(list: &Vec<String>, indexes: &Vec<usize>, doc_lines: &Vec<String>) -> (found: Option<
    usize,
>)
    requires
        doc_lines@.len() > 0,
        forall|i: int| 0 <= i < indexes@.len() ==> (#[trigger] indexes@[i]) < list@.len(),
    ensures
        ({
            let expected = first_window(
                text::views(list@),
                Seq::new(indexes@.len(), |i: int| indexes@[i] as int),
                text::views(doc_lines@),
                0,
            );
            match found {
                Some(p) => expected == Some(p as int) && p + doc_lines@.len() <= indexes@.len(),
                None => expected is None,
            }
        }),
{
    let ghost views = text::views(list@);
    let ghost all = Seq::new(indexes@.len(), |i: int| indexes@[i] as int);
    let ghost wanted = text::views(doc_lines@);
    let mut p: usize = 0;
    while p < indexes.len() && doc_lines.len() <= indexes.len() - p
        invariant
            p <= indexes@.len(),
            doc_lines@.len() > 0,
            views == text::views(list@),
            wanted == text::views(doc_lines@),
            all == Seq::new(indexes@.len(), |i: int| indexes@[i] as int),
            forall|i: int| 0 <= i < indexes@.len() ==> (#[trigger] indexes@[i]) < list@.len(),
            first_window(views, all, wanted, 0) == first_window(views, all, wanted, p as int),
        decreases indexes@.len() - p,
    {
        let mut k: usize = 0;
        assert(indexes.len() <= usize::MAX);
        while k < doc_lines.len() && text::same(
            list[indexes[p + k]].as_str(),
            doc_lines[k].as_str(),
        )
            invariant
                k <= doc_lines@.len(),
                p + doc_lines@.len() <= indexes@.len() <= usize::MAX,
                views == text::views(list@),
                wanted == text::views(doc_lines@),
                all == Seq::new(indexes@.len(), |i: int| indexes@[i] as int),
                forall|i: int| 0 <= i < indexes@.len() ==> (#[trigger] indexes@[i]) < list@.len(),
                forall|j: int| 0 <= j < k ==> views[all[p + j]] == #[trigger] wanted[j],
            decreases doc_lines@.len() - k,
        {
            k = k + 1;
        }
        if k == doc_lines.len() {
            assert(window_at(views, all, wanted, p as int));
            return Some(p);
        }
        proof {
            assert(views[all[p + k]] != wanted[k as int]);
            assert(!window_at(views, all, wanted, p as int));
        }
        p = p + 1;
    }
    None
}

/// Whether lines are all inside one of the sections
pub open spec fn inside_section(
    sections: Seq<SectionModel>,
    first_line: int,
    last_line: int,
) -> bool {
    exists|k: int|
        0 <= k < sections.len() && first_line > (#[trigger] sections[k]).header.last_line
            && last_line < sections[k].end_line
}

fn is_inside_section(markers: &Markers, first_line: usize, last_line: usize) -> (inside: bool)
    ensures
        inside == inside_section(markers@.sections, first_line as int, last_line as int),
{
    let ghost sections = markers@.sections;
    let mut k: usize = 0;
    while k < markers.sections.len()
        invariant
            k <= markers.sections@.len(),
            sections == markers@.sections,
            forall|j: int|
                0 <= j < k ==> !(first_line > (#[trigger] sections[j]).header.last_line
                    && last_line < sections[j].end_line),
        decreases markers.sections@.len() - k,
    {
        let section = &markers.sections[k];
        if first_line > section.header.last_line && last_line < section.end_line {
            assert(first_line > sections[k as int].header.last_line);
            return true;
        }
        k = k + 1;
    }
    false
}

/// `remove-lines-starting-with: "#"`
pub open spec fn remove_comments_spec() -> OptionModel {
    OptionModel {
        key: "remove-lines-starting-with"@,
        value: Some(ValueModel::Text("#"@)),
        side: OptionSide::Repo,
    }
}

/// The doc's lines
pub open spec fn doc_lines_of(doc: Seq<char>) -> Seq<Seq<char>> {
    lines::split(apply::without_newline(doc), '\n')
}

/// Marking the stretch of lines of an unmarked file that is the doc, if there is one
pub open spec fn portion_plan_spec(
    module: Seq<char>,
    doc: Seq<char>,
    file_text: Seq<char>,
    markers: MarkersModel,
) -> Option<Seq<FixModel>> {
    let doc_lines = doc_lines_of(doc);
    let file_lines = lines::split(file_text, '\n');
    let indexes = compared(file_lines, !any_comment(doc_lines));
    if doc_lines.len() < 3 && bytes::byte_len(doc) < 40 {
        None
    } else {
        match first_window(file_lines, indexes, doc_lines, 0) {
            None => None,
            Some(p) => {
                let first_line = indexes[p] + 1;
                let last_line = indexes[p + doc_lines.len() - 1] + 1;
                let line_count = last_line - first_line + 1;
                if inside_section(markers.sections, first_line, last_line) {
                    None
                } else {
                    Some(
                        seq![
                            FixModel::MarkSection {
                                name: unused_name(
                                    markers::section_names(markers.sections),
                                    module,
                                ),
                                first_line: first_line as nat,
                                line_count: line_count as nat,
                                options: if line_count > doc_lines.len() {
                                    seq![remove_comments_spec()]
                                } else {
                                    Seq::empty()
                                },
                            },
                        ],
                    )
                }
            },
        }
    }
}

pub open spec fn fixes_view(fixes: Option<Vec<LightbulbFix>>) -> Option<Seq<FixModel>> {
    match fixes {
        Some(fixes) => Some(fix_models(fixes@)),
        None => None,
    }
}

/// The doc block as a stretch of lines in an unmarked file: consecutive code
/// lines equal to it, skipping comment lines in between (only when the doc has
/// no comments of its own). Marking that stretch as a section is the fix.
pub fn portion_plan(module: &str, doc_code: &str, file_text: &str, markers: &Markers) -> (plan:
    Option<Vec<LightbulbFix>>)
    ensures
        fixes_view(plan) == portion_plan_spec(module@, doc_code@, file_text@, markers@),
{
    proof {
        apply::lemma_newline_suffix(doc_code@);
    }
    let body = match text::strip_suffix(doc_code, "\n") {
        Some(body) => body,
        None => doc_code.to_owned(),
    };
    let doc_lines = lines::split_text(body.as_str(), '\n');
    let ghost wanted = text::views(doc_lines@);
    assert(doc_lines@.len() == wanted.len());
    if doc_lines.len() < 3 && bytes::byte_length(doc_code) < 40 {
        return None;
    }
    let skip_comments = !has_comment(&doc_lines);
    let file_lines = lines::split_text(file_text, '\n');
    let ghost views = text::views(file_lines@);
    let indexes = compared_indexes(&file_lines, skip_comments);
    let ghost all = compared(views, skip_comments);
    proof {
        lemma_compared(views, skip_comments);
        assert(Seq::new(indexes@.len(), |i: int| indexes@[i] as int) =~= all);
        assert forall|i: int| 0 <= i < indexes@.len() implies (#[trigger] indexes@[i])
            < file_lines@.len() by {
            assert(0 <= all[i] < views.len());
        }
    }
    let p = match find_window(&file_lines, &indexes, &doc_lines) {
        Some(p) => p,
        None => {
            return None;
        },
    };
    assert(p + doc_lines.len() <= indexes.len());
    let last: usize = p + (doc_lines.len() - 1);
    proof {
        assert(indexes@[p as int] == all[p as int]);
        assert(indexes@[last as int] == all[last as int]);
        if p < last {
            assert(all[p as int] < all[last as int]);
        }
        assert(file_lines.len() == file_lines@.len());
    }
    let first_line: usize = indexes[p] + 1;
    let last_line: usize = indexes[last] + 1;
    if is_inside_section(markers, first_line, last_line) {
        return None;
    }
    let line_count: usize = last_line - first_line + 1;
    let mut fix_options: Vec<MarkerOption> = Vec::new();
    if line_count > doc_lines.len() {
        fix_options.push(
            MarkerOption::text("remove-lines-starting-with", "#", OptionSide::Repo),
        );
        assert(options::models(fix_options@) =~= seq![remove_comments_spec()]);
    } else {
        assert(options::models(fix_options@) =~= Seq::empty());
    }
    let fix = LightbulbFix::MarkSection {
        name: unused_section_name(markers, module),
        first_line,
        line_count,
        options: fix_options,
    };
    let mut fixes: Vec<LightbulbFix> = Vec::new();
    fixes.push(fix);
    assert(fix_models(fixes@) =~= seq![fix@]);
    Some(fixes)
}

/// Marking the whole of an unmarked file
pub open spec fn whole_file_plan_spec(doc: Seq<char>, file_text: Seq<char>) -> Result<
    Option<Seq<FixModel>>,
    Seq<char>,
> {
    let marked = repo::whole_lines(file_text);
    if marked == doc {
        Ok(Some(seq![FixModel::MarkFile]))
    } else {
        content_plan_spec(doc, marked, seq![FixModel::MarkFile], true, Seq::empty())
    }
}

/// Marking the whole of an unmarked file, with its content normalized if need be
pub fn whole_file_plan(doc_code: &str, file_text: &str) -> (plan: Result<
    Option<Vec<LightbulbFix>>,
    String,
>)
    ensures
        planned_as(whole_file_plan_spec(doc_code@, file_text@), plan),
{
    // Marked, the file's last line ends with a newline even if the file doesn't
    let marked_text = repo::end_line(file_text.to_owned());
    let mut fixes: Vec<LightbulbFix> = Vec::new();
    fixes.push(LightbulbFix::MarkFile);
    assert(fix_models(fixes@) =~= seq![FixModel::MarkFile]);
    if text::same(marked_text.as_str(), doc_code) {
        return Ok(Some(fixes));
    }
    let none: Vec<String> = Vec::new();
    assert(text::views(none@) =~= Seq::empty());
    content_plan(doc_code, marked_text.as_str(), fixes, true, &none)
}

/// An error with what was being done
pub open spec fn in_context<T>(result: Result<T, Seq<char>>, context: Seq<char>) -> Result<
    T,
    Seq<char>,
> {
    match result {
        Ok(value) => Ok(value),
        Err(error) => Err(context + ": "@ + error),
    }
}

/// An error with what was being done
pub fn error_in(context: &str, error: String) -> (message: String)
    ensures
        message@ == context@ + ": "@ + error@,
{
    text::surround(context, ": ", error.as_str())
}

/// The fixes that make a candidate match some doc code
pub open spec fn plan_against_spec(
    module: Seq<char>,
    doc: Seq<char>,
    candidate: CandidateModel,
) -> Result<Option<Seq<FixModel>>, Seq<char>> {
    match candidate.marked_code {
        Some(code) => in_context(
            content_plan_spec(
                doc,
                code.content,
                Seq::empty(),
                !apply::shapes(code.options),
                code.placeholders,
            ),
            "fixing the marked code"@,
        ),
        None => if !repo::holds_markers(candidate.file) || candidate.markers.file is Some {
            Ok(None)
        } else {
            let whole = if candidate.markers.sections.len() == 0 {
                whole_file_plan_spec(doc, candidate.file_text)
            } else {
                Ok(None)
            };
            match whole {
                Err(error) => Err("marking the whole file"@ + ": "@ + error),
                Ok(Some(fixes)) => Ok(Some(fixes)),
                Ok(None) => Ok(
                    portion_plan_spec(module, doc, candidate.file_text, candidate.markers),
                ),
            }
        },
    }
}

/// The fixes that make a candidate match some doc code
pub fn plan_against(module: &str, doc_code: &str, candidate: &Candidate<'_>) -> (plan: Result<
    Option<Vec<LightbulbFix>>,
    String,
>)
    ensures
        planned_as(plan_against_spec(module@, doc_code@, candidate@), plan),
{
    if let Some(code) = candidate.marked_code {
        let none: Vec<LightbulbFix> = Vec::new();
        assert(fix_models(none@) =~= Seq::empty());
        return match content_plan(
            doc_code,
            code.content.as_str(),
            none,
            !apply::has_shaping_options(&code.options),
            &code.placeholders,
        ) {
            Ok(plan) => Ok(plan),
            Err(error) => Err(error_in("fixing the marked code", error)),
        };
    }
    if !repo::can_hold_markers(candidate.file) || candidate.markers.file.is_some() {
        return Ok(None);
    }
    if candidate.markers.sections.len() == 0 {
        match whole_file_plan(doc_code, candidate.file_text) {
            Ok(Some(fixes)) => {
                return Ok(Some(fixes));
            },
            Ok(None) => {},
            Err(error) => {
                return Err(error_in("marking the whole file", error));
            },
        }
    }
    Ok(portion_plan(module, doc_code, candidate.file_text, candidate.markers))
}

/// A plan with `fixes` and `doc_options`, if there are fixes
pub open spec fn plan_with(
    fixes: Result<Option<Seq<FixModel>>, Seq<char>>,
    doc_options: Seq<OptionModel>,
) -> Result<Option<PlanModel>, Seq<char>> {
    match fixes {
        Ok(Some(fixes)) => Ok(Some(PlanModel { fixes, doc_options })),
        Ok(None) => Ok(None),
        Err(error) => Err(error),
    }
}

/// Whether a doc block shows shell prompts
pub open spec fn has_prompts(content: Seq<char>) -> bool {
    exists|i: int|
        0 <= i < lines::lines_of(content).len() && "$ "@.is_prefix_of(
            #[trigger] lines::lines_of(content)[i],
        )
}

/// Whether a line of `content` starts with a shell prompt
pub fn shows_prompts(content: &str) -> (found: bool)
    ensures
        found == has_prompts(content@),
{
    let list = lines::lines(content);
    let ghost views = text::views(list@);
    let mut i: usize = 0;
    while i < list.len()
        invariant
            i <= list@.len(),
            views == text::views(list@),
            views == lines::lines_of(content@),
            forall|j: int|
                0 <= j < i ==> !"$ "@.is_prefix_of(#[trigger] lines::lines_of(content@)[j]),
        decreases list@.len() - i,
    {
        if text::starts_with(list[i].as_str(), "$ ") {
            assert("$ "@.is_prefix_of(lines::lines_of(content@)[i as int]));
            return true;
        }
        i = i + 1;
    }
    false
}

/// The lightbulb for a candidate without doc options of its own
pub open spec fn plan_plain(
    module: Seq<char>,
    content: Seq<char>,
    candidate: CandidateModel,
) -> Result<Option<PlanModel>, Seq<char>> {
    match in_context(
        plan_against_spec(module, content, candidate),
        "planning against the doc"@,
    ) {
        Err(error) => Err(error),
        Ok(Some(fixes)) => Ok(Some(PlanModel { fixes, doc_options: Seq::empty() })),
        Ok(None) => if !has_prompts(content) {
            Ok(None)
        } else {
            match apply::apply_options_spec(content, seq![strip_prompt_spec()]) {
                Err(_) => Ok(None),
                Ok(doc) => plan_with(
                    in_context(
                        plan_against_spec(module, doc, candidate),
                        "planning against the doc without its shell prompts"@,
                    ),
                    seq![strip_prompt_spec()],
                ),
            }
        },
    }
}

/// The doc options a candidate declares
pub open spec fn declared_options(candidate: CandidateModel) -> Seq<OptionModel> {
    match candidate.marked_code {
        Some(code) => code.doc_options,
        None => Seq::empty(),
    }
}

/// The lightbulb for a candidate
pub open spec fn plan_for_spec(
    module: Seq<char>,
    content: Seq<char>,
    candidate: CandidateModel,
) -> Result<Option<PlanModel>, Seq<char>> {
    let declared = declared_options(candidate);
    if declared.len() > 0 {
        match apply::apply_options_spec(content, declared) {
            Err(_) => Ok(None),
            Ok(doc) => plan_with(
                in_context(
                    plan_against_spec(module, doc, candidate),
                    "planning against the doc with its declared options"@,
                ),
                Seq::empty(),
            ),
        }
    } else {
        plan_plain(module, content, candidate)
    }
}

/// Whether `plan` is the outcome `expected`
pub open spec fn plan_is(
    expected: Result<Option<PlanModel>, Seq<char>>,
    plan: Result<Option<LightbulbPlan>, String>,
) -> bool {
    match plan {
        Ok(Some(plan)) => expected == Ok::<_, Seq<char>>(Some(plan@)),
        Ok(None) => expected == Ok::<_, Seq<char>>(None::<PlanModel>),
        Err(error) => expected == Err::<Option<PlanModel>, _>(error@),
    }
}

/// The lightbulb for a candidate, if any. When shell prompts also stand in the
/// way, it adds `doc strip-line-prefix: "$ "` to the marker.
pub fn plan_for(block: &Block, candidate: &Candidate<'_>) -> (plan: Result<
    Option<LightbulbPlan>,
    String,
>)
    ensures
        plan_is(plan_for_spec(block.module@, block.content@, candidate@), plan),
{
    let module = block.module.as_str();
    let content = block.content.as_str();
    if let Some(code) = candidate.marked_code {
        assert(options::models(code.doc_options@).len() == code.doc_options@.len());
        if code.doc_options.len() > 0 {
            // Doc options that don't fit the block leave nothing to fix
            let doc_code = match apply::apply_options(content, &code.doc_options) {
                Ok(doc_code) => doc_code,
                Err(_) => {
                    return Ok(None);
                },
            };
            return match plan_against(module, doc_code.as_str(), candidate) {
                Err(error) => Err(
                    error_in("planning against the doc with its declared options", error),
                ),
                Ok(None) => Ok(None),
                Ok(Some(fixes)) => {
                    let doc_options: Vec<MarkerOption> = Vec::new();
                    assert(options::models(doc_options@) =~= Seq::empty());
                    Ok(Some(LightbulbPlan { fixes, doc_options }))
                },
            };
        }
    }
    match plan_against(module, content, candidate) {
        Err(error) => {
            return Err(error_in("planning against the doc", error));
        },
        Ok(Some(fixes)) => {
            let doc_options: Vec<MarkerOption> = Vec::new();
            assert(options::models(doc_options@) =~= Seq::empty());
            return Ok(Some(LightbulbPlan { fixes, doc_options }));
        },
        Ok(None) => {},
    }
    if !shows_prompts(content) {
        return Ok(None);
    }
    let mut prompt_options: Vec<MarkerOption> = Vec::new();
    prompt_options.push(strip_prompt_option());
    assert(options::models(prompt_options@) =~= seq![strip_prompt_spec()]);
    let doc_code = match apply::apply_options(content, &prompt_options) {
        Ok(doc_code) => doc_code,
        Err(_) => {
            return Ok(None);
        },
    };
    match plan_against(module, doc_code.as_str(), candidate) {
        Err(error) => Err(
            error_in("planning against the doc without its shell prompts", error),
        ),
        Ok(None) => Ok(None),
        Ok(Some(fixes)) => Ok(Some(LightbulbPlan { fixes, doc_options: prompt_options })),
    }
}

// ---------------------------------------------------------------------------
// Plans in words
// ---------------------------------------------------------------------------

pub open spec fn lines_word_spec(line_count: nat) -> Seq<char> {
    if line_count == 1 {
        "line"@
    } else {
        "lines"@
    }
}

pub fn lines_word(line_count: usize) -> (word: &'static str)
    ensures
        word@ == lines_word_spec(line_count as nat),
{
    if line_count == 1 {
        "line"
    } else {
        "lines"
    }
}

/// The section later fixes apply to, once a fix is done
pub open spec fn section_after_spec(fix: FixModel, section: Option<Seq<char>>) -> Option<Seq<char>> {
    match fix {
        FixModel::MarkSection { name, .. } => Some(name),
        _ => section,
    }
}

/// The section later fixes apply to, once `fix` is done
pub fn section_after(fix: &LightbulbFix, section: Option<String>) -> (after: Option<String>)
    ensures
        text::option_view(after) == section_after_spec(fix@, text::option_view(section)),
{
    match fix {
        LightbulbFix::MarkSection { name, .. } => Some(name.clone()),
        _ => section,
    }
}

pub open spec fn trailing_newline_words(
    wanted: nat,
    had: nat,
    place: Seq<char>,
) -> Seq<char> {
    if had == 0 {
        "add the missing newline at the end of "@ + place
    } else if wanted < had {
        let extra = (had - wanted) as nat;
        "remove the "@ + numbers::decimal_spec(extra) + " extra blank "@ + lines_word_spec(extra)
            + " at the end of "@ + place
    } else {
        let missing = (wanted - had) as nat;
        "add "@ + numbers::decimal_spec(missing) + " blank "@ + lines_word_spec(missing)
            + " at the end of "@ + place
    }
}

pub fn describe_trailing_newline(
    wanted_newlines: usize,
    had_newlines: usize,
    place: &str,
) -> (words: String)
    ensures
        words@ == trailing_newline_words(wanted_newlines as nat, had_newlines as nat, place@),
{
    if had_newlines == 0 {
        let mut words = "add the missing newline at the end of ".to_owned();
        words.append(place);
        words
    } else if wanted_newlines < had_newlines {
        let extra_count: usize = had_newlines - wanted_newlines;
        let number = numbers::decimal(extra_count);
        let mut words = text::surround("remove the ", number.as_str(), " extra blank ");
        words.append(lines_word(extra_count));
        words.append(" at the end of ");
        words.append(place);
        words
    } else {
        let missing_count: usize = wanted_newlines - had_newlines;
        let number = numbers::decimal(missing_count);
        let mut words = text::surround("add ", number.as_str(), " blank ");
        words.append(lines_word(missing_count));
        words.append(" at the end of ");
        words.append(place);
        words
    }
}

/// Where a fix is made
pub open spec fn place_words(section: Option<Seq<char>>) -> Seq<char> {
    match section {
        Some(name) => "section \""@ + name + "\""@,
        None => "the file"@,
    }
}

/// The options a section's start marker gets, in words
pub open spec fn option_words(list: Seq<OptionModel>, after: Seq<char>) -> Seq<Seq<char>> {
    Seq::new(list.len(), |i: int| "add `| "@ + options::option_text(list[i]) + after)
}

/// One fix's changes, in words
pub open spec fn fix_words(fix: FixModel, file: Seq<char>, section: Option<Seq<char>>) -> Seq<
    Seq<char>,
> {
    let place = place_words(section);
    match fix {
        FixModel::MarkFile => seq![
            "add a `# "@ + markers::file_marker_text() + "` line at the top of "@ + file
                + ", marking the whole file"@,
        ],
        FixModel::MarkSection { name, first_line, line_count, options } => {
            let last_line = first_line + if line_count > 0 {
                (line_count - 1) as nat
            } else {
                0
            };
            seq![
                "add start and end markers around lines "@ + numbers::decimal_spec(first_line)
                    + "-"@ + numbers::decimal_spec(last_line) + " of "@ + file
                    + ", making them section \""@ + name + "\""@,
            ] + option_words(options, "` to its start marker"@)
        },
        FixModel::RemoveDashes => seq!["remove the `---` line at the top of "@ + place],
        FixModel::AddDashes => seq!["add a `---` line at the top of "@ + place],
        FixModel::TrailingNewline { wanted_newlines, had_newlines } => seq![
            trailing_newline_words(wanted_newlines, had_newlines, place),
        ],
    }
}

/// Adds a step for each option
fn push_option_words(list: &Vec<MarkerOption>, after: &str, steps: &mut Vec<String>)
    ensures
        text::views(final(steps)@) == text::views(old(steps)@) + option_words(
            options::models(list@),
            after@,
        ),
{
    let ghost before = text::views(steps@);
    let ghost all = option_words(options::models(list@), after@);
    let mut i: usize = 0;
    assert(before + all.take(0) =~= before);
    while i < list.len()
        invariant
            i <= list@.len(),
            all == option_words(options::models(list@), after@),
            text::views(steps@) == before + all.take(i as int),
        decreases list@.len() - i,
    {
        let written = list[i].marker_text();
        let step = text::surround("add `| ", written.as_str(), after);
        proof {
            text::lemma_views_push(steps@, step);
            assert(step@ == all[i as int]);
            assert((before + all.take(i as int)).push(step@) =~= before + all.take(i + 1));
        }
        steps.push(step);
        i = i + 1;
    }
    assert(all.take(i as int) =~= all);
}

/// One fix's changes to `file` (and `section`, if any), in words
pub fn describe_fix(fix: &LightbulbFix, file: &str, section: &Option<String>) -> (steps: Vec<
    String,
>)
    ensures
        text::views(steps@) == fix_words(fix@, file@, text::option_view(*section)),
{
    let place = match section {
        Some(name) => text::surround("section \"", name.as_str(), "\""),
        None => "the file".to_owned(),
    };
    let mut steps: Vec<String> = Vec::new();
    match fix {
        LightbulbFix::MarkFile => {
            let marker = markers::file_marker();
            let mut step = text::surround("add a `# ", marker.as_str(), "` line at the top of ");
            step.append(file);
            step.append(", marking the whole file");
            steps.push(step);
        },
        LightbulbFix::MarkSection { name, first_line, line_count, options } => {
            let extra: usize = if *line_count > 0 {
                *line_count - 1
            } else {
                0
            };
            let first_number = numbers::decimal(*first_line);
            let last_number = numbers::decimal_wide(*first_line as u128 + extra as u128);
            let mut step = text::surround(
                "add start and end markers around lines ",
                first_number.as_str(),
                "-",
            );
            step.append(last_number.as_str());
            step.append(" of ");
            step.append(file);
            step.append(", making them section \"");
            step.append(name.as_str());
            step.append("\"");
            let ghost first = step@;
            steps.push(step);
            assert(text::views(steps@) =~= seq![first]);
            push_option_words(options, "` to its start marker", &mut steps);
            return steps;
        },
        LightbulbFix::RemoveDashes => {
            let mut step = "remove the `---` line at the top of ".to_owned();
            step.append(place.as_str());
            steps.push(step);
        },
        LightbulbFix::AddDashes => {
            let mut step = "add a `---` line at the top of ".to_owned();
            step.append(place.as_str());
            steps.push(step);
        },
        LightbulbFix::TrailingNewline { wanted_newlines, had_newlines } => {
            steps.push(
                describe_trailing_newline(*wanted_newlines, *had_newlines, place.as_str()),
            );
        },
    }
    assert(text::views(steps@) =~= fix_words(fix@, file@, text::option_view(*section)));
    steps
}

/// The section that fixes apply to, once earlier ones are done
pub open spec fn section_before(fixes: Seq<FixModel>, section: Option<Seq<char>>) -> Option<
    Seq<char>,
>
    decreases fixes.len(),
{
    if fixes.len() == 0 {
        section
    } else {
        section_after_spec(fixes.last(), section_before(fixes.drop_last(), section))
    }
}

/// The changes of fixes, in words
pub open spec fn all_fix_words(
    fixes: Seq<FixModel>,
    file: Seq<char>,
    section: Option<Seq<char>>,
) -> Seq<Seq<char>>
    decreases fixes.len(),
{
    if fixes.len() == 0 {
        Seq::empty()
    } else {
        all_fix_words(fixes.drop_last(), file, section) + fix_words(
            fixes.last(),
            file,
            section_before(fixes.drop_last(), section),
        )
    }
}

/// A lightbulb's changes, in words
pub open spec fn plan_words(plan: PlanModel, file: Seq<char>, section: Option<Seq<char>>) -> Seq<
    Seq<char>,
> {
    all_fix_words(plan.fixes, file, section) + option_words(
        plan.doc_options,
        "` to the marker"@,
    )
}

/// A lightbulb's changes to `file` (and its section, if any), in words
pub fn describe(plan: &LightbulbPlan, file: &str, section: &Option<String>) -> (steps: Vec<String>)
    ensures
        text::views(steps@) == plan_words(plan@, file@, text::option_view(*section)),
{
    let ghost fixes = plan@.fixes;
    let mut current: Option<String> = match section {
        Some(name) => Some(name.clone()),
        None => None,
    };
    let mut steps: Vec<String> = Vec::new();
    let mut i: usize = 0;
    assert(text::views(steps@) =~= Seq::empty());
    while i < plan.fixes.len()
        invariant
            i <= plan.fixes@.len(),
            fixes == plan@.fixes,
            text::option_view(current) == section_before(
                fixes.take(i as int),
                text::option_view(*section),
            ),
            text::views(steps@) == all_fix_words(
                fixes.take(i as int),
                file@,
                text::option_view(*section),
            ),
        decreases plan.fixes@.len() - i,
    {
        proof {
            assert(fixes.take(i + 1).drop_last() =~= fixes.take(i as int));
            assert(fixes.take(i + 1).last() == plan.fixes@[i as int]@);
        }
        let mut more = describe_fix(&plan.fixes[i], file, &current);
        let ghost before = steps@;
        let ghost added = more@;
        steps.append(&mut more);
        assert(text::views(steps@) =~= text::views(before) + text::views(added));
        current = section_after(&plan.fixes[i], current);
        i = i + 1;
    }
    assert(fixes.take(i as int) =~= fixes);
    push_option_words(&plan.doc_options, "` to the marker", &mut steps);
    steps
}

// ---------------------------------------------------------------------------
// Laws
// ---------------------------------------------------------------------------

/// Text without a leading YAML document marker, and without newlines at its end
pub open spec fn is_plain(body: Seq<char>) -> bool {
    body.len() > 0 && body.last() != '\n' && !"---\n"@.is_prefix_of(body) && body != "---"@
}

/// `body` with or without a leading YAML document marker, and with `count` newlines
pub open spec fn dressed(body: Seq<char>, dashes: bool, count: nat) -> Seq<char> {
    (if dashes {
        "---\n"@
    } else {
        Seq::empty()
    }) + body + newlines(count)
}

pub proof fn lemma_newlines_at_end(body: Seq<char>, count: nat)
    requires
        body.len() > 0,
        body.last() != '\n',
    ensures
        newlines_at_end(body + newlines(count)) == count,
        text::before_end_run(body + newlines(count), CharClass::Newline) == body,
{
    let s = body + newlines(count);
    assert forall|i: int| s.len() - count <= i < s.len() implies CharClass::Newline.has(s[i]) by {
        assert(s[i] == newlines(count)[i - body.len()]);
    }
    assert(s[s.len() - count - 1] == body.last());
    text::lemma_end_span_is(s, CharClass::Newline, count as int);
    assert(s.take(s.len() - count) =~= body);
}

pub proof fn lemma_dashes(body: Seq<char>, count: nat)
    requires
        is_plain(body),
    ensures
        !"---\n"@.is_prefix_of(body + newlines(count)),
{
    let dashes = "---\n"@;
    let s = body + newlines(count);
    reveal_strlit("---\n");
    reveal_strlit("---");
    if dashes.is_prefix_of(s) {
        assert(s.take(4) =~= dashes);
        assert(s.take(4)[0] == '-' && s.take(4)[1] == '-' && s.take(4)[2] == '-' && s.take(4)[3]
            == '\n');
        if body.len() >= 4 {
            assert(body.take(4) =~= dashes);
        } else if body.len() == 3 {
            assert(body =~= "---"@);
        } else {
            assert(s[body.len() as int] == newlines(count)[0]);
            assert(s.take(4)[body.len() as int] == '\n');
        }
    }
}

/// Code that differs from a doc only in a leading YAML document marker and in how many
/// newlines it ends with is made the doc itself
pub proof fn law_normalize(
    body: Seq<char>,
    doc_dashes: bool,
    doc_newlines: nat,
    code_dashes: bool,
    code_newlines: nat,
)
    requires
        is_plain(body),
    ensures
        normalize_spec(
            dressed(body, doc_dashes, doc_newlines),
            dressed(body, code_dashes, code_newlines),
        ).0 == dressed(body, doc_dashes, doc_newlines),
{
    let dashes = "---\n"@;
    reveal_strlit("---\n");
    let doc = dressed(body, doc_dashes, doc_newlines);
    let code = dressed(body, code_dashes, code_newlines);
    let head = if doc_dashes {
        dashes
    } else {
        Seq::empty()
    };
    lemma_dashes(body, doc_newlines);
    lemma_dashes(body, code_newlines);
    assert(dressed(body, false, doc_newlines) =~= body + newlines(doc_newlines));
    assert(dressed(body, false, code_newlines) =~= body + newlines(code_newlines));
    if doc_dashes {
        assert(doc.take(4) =~= dashes);
    }
    if code_dashes {
        assert(code.take(4) =~= dashes);
        assert(code.skip(4) =~= body + newlines(code_newlines));
    }
    let (dashed, _) = dashes_spec(doc, code);
    assert(dashed =~= (head + body) + newlines(code_newlines));
    assert(doc =~= (head + body) + newlines(doc_newlines));
    assert((head + body).last() == body.last());
    lemma_newlines_at_end(head + body, doc_newlines);
    lemma_newlines_at_end(head + body, code_newlines);
}

/// What is normalized ends with as many newlines as the doc
pub proof fn law_normalize_newlines(doc: Seq<char>, code: Seq<char>)
    ensures
        newlines_at_end(normalize_spec(doc, code).0) == newlines_at_end(doc),
{
    let (dashed, _) = dashes_spec(doc, code);
    if newlines_at_end(doc) != newlines_at_end(dashed) {
        let body = text::before_end_run(dashed, CharClass::Newline);
        let count = newlines_at_end(doc);
        text::lemma_end_span(dashed, CharClass::Newline);
        if body.len() > 0 {
            assert(body.last() == dashed[dashed.len() - newlines_at_end(dashed) - 1]);
            lemma_newlines_at_end(body, count);
        } else {
            let s = body + newlines(count);
            assert forall|i: int| 0 <= i < s.len() implies CharClass::Newline.has(s[i]) by {
                assert(s[i] == newlines(count)[i]);
            }
            text::lemma_end_span_is(s, CharClass::Newline, count as int);
        }
    }
}

} // verus!
