//! The repo side: marked code, found by scanning the repo's files for markers.

use crate::apply;
use crate::apply::MisfitModel;
use crate::bytes;
use crate::lines;
use crate::marker_laws;
use crate::markers;
use crate::markers::MarkedSection;
use crate::markers::MarkerHeader;
use crate::markers::Markers;
use crate::markers::MarkersModel;
use crate::markers::HeaderModel;
use crate::markers::SectionModel;
use crate::matching;
use crate::matching::Matcher;
use crate::matching::MatcherModel;
use crate::options;
use crate::options::MarkerOption;
use crate::options::OptionModel;
use crate::options::OptionSide;
use crate::text;
use vstd::prelude::*;

verus! {

// ---------------------------------------------------------------------------
// Which files are scanned
// ---------------------------------------------------------------------------

/// Files at least this long (in bytes) aren't scanned
pub const MAX_SIZE: u64 = 262144;

/// What follows the last `/` in a path
pub open spec fn file_name(file: Seq<char>) -> Seq<char> {
    lines::split(file, '/').last()
}

/// What follows the last `.` in a file's name; nothing when that is at its start, or
/// there is none
pub open spec fn ext_spec(file: Seq<char>) -> Seq<char> {
    let parts = lines::split(file_name(file), '.');
    if parts.len() > 2 || (parts.len() == 2 && parts[0].len() > 0) {
        parts.last()
    } else {
        Seq::empty()
    }
}

fn last_piece(whole: &str, separator: char) -> (last: String)
    ensures
        last@ == lines::split(whole@, separator).last(),
{
    let pieces = lines::split_text(whole, separator);
    let last: usize = pieces.len() - 1;
    assert(text::views(pieces@).last() == pieces@[last as int]@);
    pieces[last].clone()
}

pub fn ext(file: &str) -> (extension: String)
    ensures
        extension@ == ext_spec(file@),
{
    let name = last_piece(file, '/');
    let parts = lines::split_text(name.as_str(), '.');
    let ghost views = text::views(parts@);
    assert(parts@.len() == views.len());
    assert(views[0] == parts@[0]@);
    if parts.len() > 2 || (parts.len() == 2 && text::chars_of(parts[0].as_str()).len() > 0) {
        let last: usize = parts.len() - 1;
        assert(views.last() == parts@[last as int]@);
        parts[last].clone()
    } else {
        String::new()
    }
}

pub fn is_makefile(file: &str) -> (found: bool)
    ensures
        found == (file_name(file@) == "Makefile"@),
{
    text::same(last_piece(file, '/').as_str(), "Makefile")
}

/// Whether comments start with `#` in files with this extension
pub open spec fn is_hash_comment_ext(extension: Seq<char>) -> bool {
    extension == ""@ || extension == "yaml"@ || extension == "yml"@ || extension == "sh"@
        || extension == "bash"@ || extension == "conf"@ || extension == "cfg"@ || extension
        == "env"@ || extension == "py"@ || extension == "ini"@ || extension == "toml"@
}

/// Whether files with this extension are text, but can't carry markers
pub open spec fn is_other_text_ext(extension: Seq<char>) -> bool {
    extension == "txt"@ || extension == "j2"@ || extension == "tpl"@ || extension == "template"@
}

/// Whether a file's comments start with `#`, so it can carry markers
pub open spec fn holds_markers(file: Seq<char>) -> bool {
    is_hash_comment_ext(ext_spec(file)) || file_name(file) == "Makefile"@
}

pub fn can_hold_markers(file: &str) -> (found: bool)
    ensures
        found == holds_markers(file@),
{
    let extension = ext(file);
    let e = extension.as_str();
    text::same(e, "") || text::same(e, "yaml") || text::same(e, "yml") || text::same(e, "sh")
        || text::same(e, "bash") || text::same(e, "conf") || text::same(e, "cfg") || text::same(
        e,
        "env",
    ) || text::same(e, "py") || text::same(e, "ini") || text::same(e, "toml") || is_makefile(file)
}

/// Whether a file (by its path) is one to scan
pub open spec fn is_listed(file: Seq<char>, exclude: Seq<Seq<char>>) -> bool {
    &&& file.len() > 0
    &&& !lines::split(file, '/').contains("node_modules"@)
    &&& forall|i: int| 0 <= i < exclude.len() ==> !(#[trigger] exclude[i]).is_prefix_of(file)
    &&& holds_markers(file) || is_other_text_ext(ext_spec(file))
}

/// Whether a file (by its path) is one to scan
pub fn is_repo_file(file: &str, exclude: &Vec<String>) -> (found: bool)
    ensures
        found == is_listed(file@, text::views(exclude@)),
{
    if text::chars_of(file).len() == 0 {
        return false;
    }
    let parts = lines::split_text(file, '/');
    if text::list_contains(&parts, "node_modules") {
        return false;
    }
    let ghost views = text::views(exclude@);
    let mut i: usize = 0;
    while i < exclude.len()
        invariant
            i <= exclude@.len(),
            views == text::views(exclude@),
            forall|j: int| 0 <= j < i ==> !(#[trigger] views[j]).is_prefix_of(file@),
        decreases exclude@.len() - i,
    {
        if text::starts_with(file, exclude[i].as_str()) {
            assert(views[i as int].is_prefix_of(file@));
            return false;
        }
        i = i + 1;
    }
    let extension = ext(file);
    let e = extension.as_str();
    can_hold_markers(file) || text::same(e, "txt") || text::same(e, "j2") || text::same(e, "tpl")
        || text::same(e, "template")
}

/// The files to scan among those listed
pub open spec fn listed_files(list: Seq<Seq<char>>, exclude: Seq<Seq<char>>) -> Seq<Seq<char>>
    decreases list.len(),
{
    if list.len() == 0 {
        Seq::empty()
    } else if is_listed(list.last(), exclude) {
        listed_files(list.drop_last(), exclude).push(list.last())
    } else {
        listed_files(list.drop_last(), exclude)
    }
}

/// The text files in a listing of the repo (one path per line), minus excluded paths
pub fn repo_files(listing: &str, exclude: &Vec<String>) -> (files: Vec<String>)
    ensures
        text::views(files@) == listed_files(lines::lines_of(listing@), text::views(exclude@)),
{
    let all = lines::lines(listing);
    let ghost views = text::views(all@);
    let mut files: Vec<String> = Vec::new();
    let mut i: usize = 0;
    assert(text::views(files@) =~= listed_files(views.take(0), text::views(exclude@)));
    while i < all.len()
        invariant
            i <= all@.len(),
            views == text::views(all@),
            text::views(files@) == listed_files(views.take(i as int), text::views(exclude@)),
        decreases all@.len() - i,
    {
        proof {
            assert(views.take(i + 1).drop_last() =~= views.take(i as int));
            assert(views.take(i + 1).last() == all@[i as int]@);
        }
        if is_repo_file(all[i].as_str(), exclude) {
            let file = all[i].clone();
            proof {
                text::lemma_views_push(files@, file);
            }
            files.push(file);
        }
        i = i + 1;
    }
    assert(views.take(i as int) =~= views);
    files
}

/// Whether a path is a regular file small enough to scan
pub fn is_small_file(is_file: bool, length: u64) -> (small: bool)
    ensures
        small == (is_file && length < MAX_SIZE),
{
    is_file && length < MAX_SIZE
}

// ---------------------------------------------------------------------------
// Marked code
// ---------------------------------------------------------------------------

/// A marked file, or a marked section of a file
pub struct MarkedCode {
    /// `path` or `path#section`
    pub id: String,
    pub file: String,
    pub section: Option<String>,
    /// The marked lines with the code-side options applied
    pub content: String,
    pub options: Vec<MarkerOption>,
    pub doc_options: Vec<MarkerOption>,
    pub placeholders: Vec<String>,
    /// 1-based range of the marked lines (sections only)
    pub lines: Option<(usize, usize)>,
    /// 1-based marker line numbers
    pub marker_lines: Vec<usize>,
    /// The content, compiled for matching against doc blocks
    pub matcher: Matcher,
}

pub struct CodeModel {
    pub id: Seq<char>,
    pub file: Seq<char>,
    pub section: Option<Seq<char>>,
    pub content: Seq<char>,
    pub options: Seq<OptionModel>,
    pub doc_options: Seq<OptionModel>,
    pub placeholders: Seq<Seq<char>>,
    pub lines: Option<(usize, usize)>,
    pub marker_lines: Seq<usize>,
    pub matcher: MatcherModel,
}

impl View for MarkedCode {
    type V = CodeModel;

    open spec fn view(&self) -> CodeModel {
        CodeModel {
            id: self.id@,
            file: self.file@,
            section: text::option_view(self.section),
            content: self.content@,
            options: options::models(self.options@),
            doc_options: options::models(self.doc_options@),
            placeholders: text::views(self.placeholders@),
            lines: self.lines,
            marker_lines: self.marker_lines@,
            matcher: self.matcher@,
        }
    }
}

pub open spec fn code_models(list: Seq<MarkedCode>) -> Seq<CodeModel> {
    Seq::new(list.len(), |i: int| list[i]@)
}

/// A repo file, for finding code to mark
pub struct RepoFile {
    pub file: String,
    pub text: String,
    pub markers: Markers,
}

pub struct FileModel {
    pub file: Seq<char>,
    pub text: Seq<char>,
    pub markers: MarkersModel,
}

impl View for RepoFile {
    type V = FileModel;

    open spec fn view(&self) -> FileModel {
        FileModel { file: self.file@, text: self.text@, markers: self.markers@ }
    }
}

pub open spec fn file_models(list: Seq<RepoFile>) -> Seq<FileModel> {
    Seq::new(list.len(), |i: int| list[i]@)
}

/// What is wrong with a file's markers
#[derive(Debug)]
pub struct Problem {
    pub file: String,
    pub message: String,
}

pub struct ProblemModel {
    pub file: Seq<char>,
    pub message: Seq<char>,
}

impl View for Problem {
    type V = ProblemModel;

    open spec fn view(&self) -> ProblemModel {
        ProblemModel { file: self.file@, message: self.message@ }
    }
}

impl Clone for Problem {
    fn clone(&self) -> (copy: Self)
        ensures
            copy@ == self@,
    {
        Problem { file: self.file.clone(), message: self.message.clone() }
    }
}

pub open spec fn problem_models(list: Seq<Problem>) -> Seq<ProblemModel> {
    Seq::new(list.len(), |i: int| list[i]@)
}

/// What a scan of the repo found
pub struct Scan {
    pub marked: Vec<MarkedCode>,
    pub files: Vec<RepoFile>,
    pub problems: Vec<Problem>,
}

pub struct RepoModel {
    pub marked: Seq<CodeModel>,
    pub files: Seq<FileModel>,
    pub problems: Seq<ProblemModel>,
}

impl View for Scan {
    type V = RepoModel;

    open spec fn view(&self) -> RepoModel {
        RepoModel {
            marked: code_models(self.marked@),
            files: file_models(self.files@),
            problems: problem_models(self.problems@),
        }
    }
}

impl Scan {
    /// Whether the marked code is compiled for matching
    pub open spec fn wf(self) -> bool {
        forall|i: int| 0 <= i < self.marked@.len() ==> (#[trigger] self.marked@[i]).matcher.wf()
    }
}

/// `path` or `path#section`
pub open spec fn code_id_spec(file: Seq<char>, section: Option<Seq<char>>) -> Seq<char> {
    match section {
        Some(section) => file + "#"@ + section,
        None => file,
    }
}

pub fn code_id(file: &str, section: &Option<String>) -> (id: String)
    ensures
        id@ == code_id_spec(file@, text::option_view(*section)),
{
    match section {
        Some(section) => text::surround(file, "#", section.as_str()),
        None => file.to_owned(),
    }
}

/// A marked file or section, before its code-side options are applied
pub struct RawMarked {
    pub section: Option<String>,
    pub raw: String,
    pub options: Vec<MarkerOption>,
    pub lines: Option<(usize, usize)>,
    pub marker_lines: Vec<usize>,
}

pub struct RawModel {
    pub section: Option<Seq<char>>,
    pub raw: Seq<char>,
    pub options: Seq<OptionModel>,
    pub lines: Option<(usize, usize)>,
    pub marker_lines: Seq<usize>,
}

impl View for RawMarked {
    type V = RawModel;

    open spec fn view(&self) -> RawModel {
        RawModel {
            section: text::option_view(self.section),
            raw: self.raw@,
            options: options::models(self.options@),
            lines: self.lines,
            marker_lines: self.marker_lines@,
        }
    }
}

/// The line numbers from `first` to `last`
pub open spec fn line_numbers(first: nat, last: nat) -> Seq<usize> {
    Seq::new(
        if first <= last {
            (last - first + 1) as nat
        } else {
            0
        },
        |i: int| (first + i) as usize,
    )
}

fn numbers_from(first: usize, last: usize) -> (list: Vec<usize>)
    ensures
        list@ == line_numbers(first as nat, last as nat),
{
    let mut list: Vec<usize> = Vec::new();
    if first > last {
        assert(list@ =~= line_numbers(first as nat, last as nat));
        return list;
    }
    let mut i: usize = first;
    while i < last
        invariant
            first <= i <= last,
            list@.len() == i - first,
            forall|k: int| 0 <= k < list@.len() ==> list@[k] == first + k,
        decreases last - i,
    {
        list.push(i);
        i = i + 1;
    }
    list.push(last);
    assert(list@ =~= line_numbers(first as nat, last as nat));
    list
}

/// Text whose last line ends with a line feed, unless there is none
pub open spec fn whole_lines(s: Seq<char>) -> Seq<char> {
    if s.len() == 0 || s.last() == '\n' {
        s
    } else {
        s.push('\n')
    }
}

/// `s`, with its last line ending with a line feed
pub fn end_line(s: String) -> (whole: String)
    ensures
        whole@ == whole_lines(s@),
{
    let chars = text::chars_of(s.as_str());
    if chars.len() == 0 || chars[chars.len() - 1] == '\n' {
        s
    } else {
        let mut whole = s;
        whole.push('\n');
        whole
    }
}

/// The whole file, minus its file marker
pub open spec fn marked_file_spec(s: Seq<char>, header: HeaderModel) -> Result<RawModel, Seq<char>> {
    if !bytes::is_boundary(s, header.marker_from as int) {
        Err("file marker starts outside the file"@)
    } else if !bytes::is_boundary(s, header.marker_to as int) {
        Err("file marker ends outside the file"@)
    } else {
        Ok(
            RawModel {
                section: None,
                raw: whole_lines(
                    bytes::before_byte(s, header.marker_from as int) + bytes::from_byte(
                        s,
                        header.marker_to as int,
                    ),
                ),
                options: header.options,
                lines: None,
                marker_lines: line_numbers(header.first_line, header.last_line),
            },
        )
    }
}

/// The whole file, minus its file marker. Marked content is whole lines, like a doc
/// block's: a file's last line counts as ending with a newline even when the file
/// doesn't.
pub fn marked_file(text: &str, header: &MarkerHeader) -> (raw: Result<RawMarked, String>)
    ensures
        match raw {
            Ok(raw) => marked_file_spec(text@, header@) == Ok::<_, Seq<char>>(raw@),
            Err(error) => marked_file_spec(text@, header@) == Err::<RawModel, _>(error@),
        },
{
    let before = match bytes::split_at(text, header.marker_from) {
        Some((before, _)) => before,
        None => {
            return Err("file marker starts outside the file".to_owned());
        },
    };
    let after = match bytes::split_at(text, header.marker_to) {
        Some((_, after)) => after,
        None => {
            return Err("file marker ends outside the file".to_owned());
        },
    };
    let mut joined = before;
    joined.append(after.as_str());
    Ok(
        RawMarked {
            section: None,
            raw: end_line(joined),
            options: options::clone_options(&header.options),
            lines: None,
            marker_lines: numbers_from(header.first_line, header.last_line),
        },
    )
}

/// The lines between a section's markers
pub open spec fn marked_section_spec(s: Seq<char>, section: SectionModel) -> Result<
    RawModel,
    Seq<char>,
> {
    if section.content_from <= section.content_to && bytes::is_boundary(
        s,
        section.content_from as int,
    ) && bytes::is_boundary(s, section.content_to as int) {
        Ok(
            RawModel {
                section: Some(section.name),
                raw: bytes::byte_range(
                    s,
                    section.content_from as int,
                    section.content_to as int,
                ),
                options: section.header.options,
                lines: Some(
                    (
                        (section.header.last_line + 1) as usize,
                        (section.end_line - 1) as usize,
                    ),
                ),
                marker_lines: line_numbers(
                    section.header.first_line,
                    section.header.last_line,
                ).push(section.end_line as usize),
            },
        )
    } else {
        Err("section \""@ + section.name + "\" is outside the file"@)
    }
}

/// The lines between a section's markers
pub fn marked_section(text: &str, section: &MarkedSection) -> (raw: Result<RawMarked, String>)
    requires
        section.header.last_line < section.end_line,
    ensures
        match raw {
            Ok(raw) => marked_section_spec(text@, section@) == Ok::<_, Seq<char>>(raw@),
            Err(error) => marked_section_spec(text@, section@) == Err::<RawModel, _>(error@),
        },
{
    match bytes::slice(text, section.content_from, section.content_to) {
        None => Err(
            text::surround("section \"", section.name.as_str(), "\" is outside the file"),
        ),
        Some(raw) => {
            let mut marker_lines = numbers_from(
                section.header.first_line,
                section.header.last_line,
            );
            marker_lines.push(section.end_line);
            Ok(
                RawMarked {
                    section: Some(section.name.clone()),
                    raw,
                    options: options::clone_options(&section.header.options),
                    lines: Some((section.header.last_line + 1, section.end_line - 1)),
                    marker_lines,
                },
            )
        },
    }
}

/// The options that apply to `side`
pub open spec fn on_side(list: Seq<OptionModel>, side: OptionSide) -> Seq<OptionModel>
    decreases list.len(),
{
    if list.len() == 0 {
        Seq::empty()
    } else if list.last().side == side {
        on_side(list.drop_last(), side).push(list.last())
    } else {
        on_side(list.drop_last(), side)
    }
}

/// The options that apply to `side`
pub fn options_on_side(list: &Vec<MarkerOption>, side: OptionSide) -> (kept: Vec<MarkerOption>)
    ensures
        options::models(kept@) == on_side(options::models(list@), side),
{
    let ghost all = options::models(list@);
    let mut kept: Vec<MarkerOption> = Vec::new();
    let mut i: usize = 0;
    assert(options::models(kept@) =~= on_side(all.take(0), side));
    while i < list.len()
        invariant
            i <= list@.len(),
            all == options::models(list@),
            options::models(kept@) == on_side(all.take(i as int), side),
        decreases list@.len() - i,
    {
        proof {
            assert(all.take(i + 1).drop_last() =~= all.take(i as int));
            assert(all.take(i + 1).last() == list@[i as int]@);
        }
        if list[i].side == side {
            let option = list[i].clone();
            proof {
                options::lemma_models_push(kept@, option);
            }
            kept.push(option);
        }
        i = i + 1;
    }
    assert(all.take(i as int) =~= all);
    kept
}

/// The problem with marked code whose options don't fit it: what is said of the option
/// that doesn't, without the reason behind that
pub open spec fn options_problem(
    file: Seq<char>,
    section: Option<Seq<char>>,
    misfit: MisfitModel,
) -> ProblemModel {
    ProblemModel {
        file,
        message: match section {
            Some(section) => "section \""@ + section + "\": "@ + misfit.message,
            None => "file marker: "@ + misfit.message,
        },
    }
}

/// What marked code adds to a scan
pub open spec fn add_marked_spec(scan: RepoModel, file: Seq<char>, marked: RawModel) -> Result<
    RepoModel,
    Seq<char>,
> {
    let code_side = on_side(marked.options, OptionSide::Repo);
    match apply::apply_options_spec(marked.raw, code_side) {
        Err(misfit) => Ok(
            RepoModel {
                problems: scan.problems.push(options_problem(file, marked.section, misfit)),
                ..scan
            },
        ),
        Ok(content) => match apply::placeholders_spec(code_side, content) {
            Err(error) => Err("finding the placeholders: "@ + error),
            Ok(placeholders) => match matching::matcher_spec(content, placeholders) {
                Err(error) => Err("compiling the code for matching: "@ + error),
                Ok(matcher) => Ok(
                    RepoModel {
                        marked: scan.marked.push(
                            CodeModel {
                                id: code_id_spec(file, marked.section),
                                file,
                                section: marked.section,
                                content,
                                options: code_side,
                                doc_options: on_side(marked.options, OptionSide::Doc),
                                placeholders,
                                lines: marked.lines,
                                marker_lines: marked.marker_lines,
                                matcher,
                            },
                        ),
                        ..scan
                    },
                ),
            },
        },
    }
}

/// Adds the marked code to `scan`, or a problem when its options can't be applied
pub fn add_marked(scan: Scan, file: &str, marked: RawMarked) -> (next: Result<Scan, String>)
    requires
        scan.wf(),
    ensures
        match next {
            Ok(next) => next.wf() && add_marked_spec(scan@, file@, marked@) == Ok::<_, Seq<char>>(
                next@,
            ),
            Err(error) => add_marked_spec(scan@, file@, marked@) == Err::<RepoModel, _>(error@),
        },
{
    let mut next = scan;
    let code_side = options_on_side(&marked.options, OptionSide::Repo);
    let doc_side = options_on_side(&marked.options, OptionSide::Doc);
    match apply::apply_options(marked.raw.as_str(), &code_side) {
        Err(misfit) => {
            let message = match &marked.section {
                Some(section) => {
                    let mut message = text::surround("section \"", section.as_str(), "\": ");
                    message.append(misfit.message.as_str());
                    message
                },
                None => {
                    let mut message = "file marker: ".to_owned();
                    message.append(misfit.message.as_str());
                    message
                },
            };
            let problem = Problem { file: file.to_owned(), message };
            next.problems.push(problem);
            proof {
                assert(problem_models(next.problems@) =~= scan@.problems.push(problem@));
            }
            Ok(next)
        },
        Ok(content) => match apply::placeholders(&code_side, content.as_str()) {
            Err(error) => {
                let mut message = "finding the placeholders: ".to_owned();
                message.append(error.as_str());
                Err(message)
            },
            Ok(placeholders) => match Matcher::new(content.as_str(), &placeholders) {
                Err(error) => {
                    let mut message = "compiling the code for matching: ".to_owned();
                    message.append(error.as_str());
                    Err(message)
                },
                Ok(matcher) => {
                    let code = MarkedCode {
                        id: code_id(file, &marked.section),
                        file: file.to_owned(),
                        section: marked.section,
                        content,
                        options: code_side,
                        doc_options: doc_side,
                        placeholders,
                        lines: marked.lines,
                        marker_lines: marked.marker_lines,
                        matcher,
                    };
                    next.marked.push(code);
                    proof {
                        assert(code_models(next.marked@) =~= scan@.marked.push(code@));
                    }
                    Ok(next)
                },
            },
        },
    }
}

/// The problems with the markers of `file`
pub open spec fn file_problems(file: Seq<char>, messages: Seq<Seq<char>>) -> Seq<ProblemModel> {
    Seq::new(messages.len(), |i: int| ProblemModel { file, message: messages[i] })
}

/// An error with the section it is about
pub open spec fn section_error(file: Seq<char>, name: Seq<char>, error: Seq<char>) -> Seq<char> {
    "reading section \""@ + name + "\" of "@ + file + ": "@ + error
}

/// What sections of a file, one after the other, add to a scan
pub open spec fn add_sections_spec(
    scan: RepoModel,
    file: Seq<char>,
    s: Seq<char>,
    sections: Seq<SectionModel>,
) -> Result<RepoModel, Seq<char>>
    decreases sections.len(),
{
    if sections.len() == 0 {
        Ok(scan)
    } else {
        let section = sections.last();
        match add_sections_spec(scan, file, s, sections.drop_last()) {
            Err(error) => Err(error),
            Ok(before) => match marked_section_spec(s, section) {
                Err(error) => Err(error),
                Ok(raw) => match add_marked_spec(before, file, raw) {
                    Err(error) => Err(section_error(file, section.name, error)),
                    Ok(next) => Ok(next),
                },
            },
        }
    }
}

proof fn lemma_add_sections_error(
    scan: RepoModel,
    file: Seq<char>,
    s: Seq<char>,
    sections: Seq<SectionModel>,
    i: int,
)
    requires
        0 <= i <= sections.len(),
        add_sections_spec(scan, file, s, sections.take(i)) is Err,
    ensures
        add_sections_spec(scan, file, s, sections) == add_sections_spec(
            scan,
            file,
            s,
            sections.take(i),
        ),
    decreases sections.len(),
{
    if i == sections.len() {
        assert(sections.take(i) =~= sections);
    } else {
        assert(sections.drop_last().take(i) =~= sections.take(i));
        lemma_add_sections_error(scan, file, s, sections.drop_last(), i);
    }
}

/// What a file's marker adds to a scan
pub open spec fn add_file_spec(
    scan: RepoModel,
    file: Seq<char>,
    s: Seq<char>,
    header: Option<HeaderModel>,
) -> Result<RepoModel, Seq<char>> {
    match header {
        None => Ok(scan),
        Some(header) => match marked_file_spec(s, header) {
            Err(error) => Err(error),
            Ok(raw) => match add_marked_spec(scan, file, raw) {
                Err(error) => Err("reading the file marked in "@ + file + ": "@ + error),
                Ok(next) => Ok(next),
            },
        },
    }
}

/// What a file adds to a scan: its marked code, the problems with its markers, and itself
pub open spec fn scan_file_spec(scan: RepoModel, file: Seq<char>, s: Seq<char>) -> Result<
    RepoModel,
    Seq<char>,
> {
    let found = markers::markers_spec(s);
    let noted = RepoModel {
        problems: scan.problems + file_problems(file, found.problems),
        ..scan
    };
    match add_file_spec(noted, file, s, found.file) {
        Err(error) => Err(error),
        Ok(with_file) => match add_sections_spec(with_file, file, s, found.sections) {
            Err(error) => Err(error),
            Ok(next) => Ok(
                RepoModel {
                    files: next.files.push(FileModel { file, text: s, markers: found }),
                    ..next
                },
            ),
        },
    }
}

/// Adds the problems with the markers of `file`
fn add_problems(problems: &mut Vec<Problem>, file: &str, messages: &Vec<String>)
    ensures
        problem_models(final(problems)@) == problem_models(old(problems)@) + file_problems(
            file@,
            text::views(messages@),
        ),
{
    let ghost before = problem_models(problems@);
    let ghost all = file_problems(file@, text::views(messages@));
    let mut i: usize = 0;
    assert(before + all.take(0) =~= before);
    while i < messages.len()
        invariant
            i <= messages@.len(),
            all == file_problems(file@, text::views(messages@)),
            problem_models(problems@) == before + all.take(i as int),
        decreases messages@.len() - i,
    {
        let ghost so_far = problems@;
        let problem = Problem { file: file.to_owned(), message: messages[i].clone() };
        problems.push(problem);
        proof {
            assert(problem@ == all[i as int]);
            assert(problem_models(problems@) =~= problem_models(so_far).push(problem@));
            assert((before + all.take(i as int)).push(problem@) =~= before + all.take(i + 1));
        }
        i = i + 1;
    }
    assert(all.take(i as int) =~= all);
}

/// Adds a file's marked code, and the problems with its markers, to `scan`
pub fn scan_file(scan: Scan, file: String, text: String) -> (next: Result<Scan, String>)
    requires
        scan.wf(),
    ensures
        match next {
            Ok(next) => next.wf() && scan_file_spec(scan@, file@, text@) == Ok::<_, Seq<char>>(
                next@,
            ),
            Err(error) => scan_file_spec(scan@, file@, text@) == Err::<RepoModel, _>(error@),
        },
{
    let found = markers::parse_markers(text.as_str());
    let ghost model = found@;
    let mut next = scan;
    add_problems(&mut next.problems, file.as_str(), &found.problems);
    proof {
        marker_laws::law_markers_are_whole_lines(text@);
    }
    if let Some(header) = &found.file {
        match marked_file(text.as_str(), header) {
            Err(error) => {
                return Err(error);
            },
            Ok(raw) => match add_marked(next, file.as_str(), raw) {
                Ok(with_file) => {
                    next = with_file;
                },
                Err(error) => {
                    let mut message = text::surround(
                        "reading the file marked in ",
                        file.as_str(),
                        ": ",
                    );
                    message.append(error.as_str());
                    return Err(message);
                },
            },
        }
    }
    let ghost with_file = next@;
    let mut i: usize = 0;
    while i < found.sections.len()
        invariant
            i <= found.sections@.len(),
            next.wf(),
            model == found@,
            model == markers::markers_spec(text@),
            marker_laws::markers_in(
                lines::split(text@, '\n'),
                bytes::byte_len(text@),
                model,
            ),
            scan_file_spec(scan@, file@, text@) == match add_sections_spec(
                with_file,
                file@,
                text@,
                model.sections,
            ) {
                Err(error) => Err::<RepoModel, _>(error),
                Ok(next) => Ok(
                    RepoModel {
                        files: next.files.push(
                            FileModel { file: file@, text: text@, markers: model },
                        ),
                        ..next
                    },
                ),
            },
            add_sections_spec(with_file, file@, text@, model.sections.take(i as int)) == Ok::<
                _,
                Seq<char>,
            >(next@),
        decreases found.sections@.len() - i,
    {
        let ghost sections = model.sections;
        let section = &found.sections[i];
        proof {
            assert(sections.take(i + 1).drop_last() =~= sections.take(i as int));
            assert(sections.take(i + 1).last() == sections[i as int]);
            assert(sections[i as int] == section@);
            assert(marker_laws::section_in(
                lines::split(text@, '\n'),
                bytes::byte_len(text@),
                sections[i as int],
            ));
        }
        match marked_section(text.as_str(), section) {
            Err(error) => {
                proof {
                    lemma_add_sections_error(with_file, file@, text@, sections, i + 1);
                }
                return Err(error);
            },
            Ok(raw) => match add_marked(next, file.as_str(), raw) {
                Ok(with_section) => {
                    next = with_section;
                },
                Err(error) => {
                    let mut message = text::surround(
                        "reading section \"",
                        section.name.as_str(),
                        "\" of ",
                    );
                    message.append(file.as_str());
                    message.append(": ");
                    message.append(error.as_str());
                    proof {
                        lemma_add_sections_error(with_file, file@, text@, sections, i + 1);
                    }
                    return Err(message);
                },
            },
        }
        i = i + 1;
    }
    proof {
        assert(model.sections.take(i as int) =~= model.sections);
    }
    let ghost before = next@;
    let repo_file = RepoFile { file, text, markers: found };
    next.files.push(repo_file);
    assert(file_models(next.files@) =~= before.files.push(repo_file@));
    Ok(next)
}

/// Files, as their paths and texts
pub open spec fn pair_views(list: Seq<(String, String)>) -> Seq<(Seq<char>, Seq<char>)> {
    Seq::new(list.len(), |i: int| (list[i].0@, list[i].1@))
}

/// Nothing found
pub open spec fn nothing_found() -> RepoModel {
    RepoModel { marked: Seq::empty(), files: Seq::empty(), problems: Seq::empty() }
}

/// What a scan of files finds, or what goes wrong with the first that can't be scanned
pub open spec fn scan_spec(list: Seq<(Seq<char>, Seq<char>)>) -> Result<RepoModel, Seq<char>>
    decreases list.len(),
{
    if list.len() == 0 {
        Ok(nothing_found())
    } else {
        match scan_spec(list.drop_last()) {
            Err(error) => Err(error),
            Ok(before) => scan_file_spec(before, list.last().0, list.last().1),
        }
    }
}

proof fn lemma_scan_error(list: Seq<(Seq<char>, Seq<char>)>, i: int)
    requires
        0 <= i <= list.len(),
        scan_spec(list.take(i)) is Err,
    ensures
        scan_spec(list) == scan_spec(list.take(i)),
    decreases list.len(),
{
    if i == list.len() {
        assert(list.take(i) =~= list);
    } else {
        assert(list.drop_last().take(i) =~= list.take(i));
        lemma_scan_error(list.drop_last(), i);
    }
}

/// Finds the marked code in files (given as paths and texts)
pub fn scan(files: Vec<(String, String)>) -> (found: Result<Scan, String>)
    ensures
        match found {
            Ok(found) => found.wf() && scan_spec(pair_views(files@)) == Ok::<_, Seq<char>>(found@),
            Err(error) => scan_spec(pair_views(files@)) == Err::<RepoModel, _>(error@),
        },
{
    let ghost all = pair_views(files@);
    let mut found = Scan { marked: Vec::new(), files: Vec::new(), problems: Vec::new() };
    let mut i: usize = 0;
    proof {
        assert(found@.marked =~= Seq::empty());
        assert(found@.files =~= Seq::empty());
        assert(found@.problems =~= Seq::empty());
    }
    while i < files.len()
        invariant
            i <= files@.len(),
            all == pair_views(files@),
            found.wf(),
            scan_spec(all.take(i as int)) == Ok::<_, Seq<char>>(found@),
        decreases files@.len() - i,
    {
        proof {
            assert(all.take(i + 1).drop_last() =~= all.take(i as int));
            assert(all.take(i + 1).last() == all[i as int]);
        }
        match scan_file(found, files[i].0.clone(), files[i].1.clone()) {
            Ok(next) => {
                found = next;
            },
            Err(error) => {
                proof {
                    lemma_scan_error(all, i + 1);
                }
                return Err(error);
            },
        }
        i = i + 1;
    }
    assert(all.take(i as int) =~= all);
    Ok(found)
}

// ---------------------------------------------------------------------------
// Laws
// ---------------------------------------------------------------------------

/// The marked code of a text's own markers is always there: the lines between a
/// section's markers, and all lines but the marker's for a file
pub proof fn law_marked_code_is_in_the_text(s: Seq<char>)
    ensures
        markers::markers_spec(s).file matches Some(header) ==> marked_file_spec(s, header) is Ok,
        forall|k: int|
            0 <= k < markers::markers_spec(s).sections.len() ==> (marked_section_spec(
                s,
                #[trigger] markers::markers_spec(s).sections[k],
            ) matches Ok(raw) && raw.raw == marker_laws::body(
                lines::split(s, '\n'),
                markers::markers_spec(s).sections[k].header.last_line as int,
                markers::markers_spec(s).sections[k].end_line - 1,
            )),
{
    let found = markers::markers_spec(s);
    let text_lines = lines::split(s, '\n');
    marker_laws::law_markers_are_whole_lines(s);
    if let Some(header) = found.file {
        marker_laws::law_header_in_text(s, header);
    }
    assert forall|k: int| 0 <= k < found.sections.len() implies (marked_section_spec(
        s,
        #[trigger] found.sections[k],
    ) matches Ok(raw) && raw.raw == marker_laws::body(
        text_lines,
        found.sections[k].header.last_line as int,
        found.sections[k].end_line - 1,
    )) by {
        assert(marker_laws::section_in(text_lines, bytes::byte_len(s), found.sections[k]));
        marker_laws::law_section_content(s, found.sections[k]);
    }
}

} // verus!
