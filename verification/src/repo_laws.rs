//! What holds of the marked code that a scan of a repository finds.

use crate::apply;
use crate::markers;
use crate::markers::HeaderModel;
use crate::markers::SectionModel;
use crate::options::OptionModel;
use crate::options::OptionSide;
use crate::repo;
use crate::repo::CodeModel;
use crate::repo::FileModel;
use crate::repo::RawModel;
use crate::repo::RepoModel;
use vstd::prelude::*;

verus! {

// ---------------------------------------------------------------------------
// Marked code
// ---------------------------------------------------------------------------

/// Code is known by its file alone, or by its file, a number sign and its section
pub proof fn law_code_id(file: Seq<char>, section: Seq<char>)
    ensures
        repo::code_id_spec(file, None) == file,
        repo::code_id_spec(file, Some(section)) == file + seq!['#'] + section,
{
    reveal_strlit("#");
    assert("#"@ =~= seq!['#']);
}

/// The options on a side are all of those that are for it, in order
pub proof fn law_options_on_side(list: Seq<OptionModel>, side: OptionSide)
    ensures
        repo::on_side(list, side) == list.filter(|option: OptionModel| option.side == side),
    decreases list.len(),
{
    reveal(Seq::filter);
    if list.len() > 0 {
        law_options_on_side(list.drop_last(), side);
    }
}

/// Each option is on one side or the other
pub proof fn law_sides(list: Seq<OptionModel>)
    ensures
        repo::on_side(list, OptionSide::Repo).len() + repo::on_side(list, OptionSide::Doc).len()
            == list.len(),
    decreases list.len(),
{
    if list.len() > 0 {
        law_sides(list.drop_last());
    }
}

/// Text of whole lines stays as it is, and other text gets the line end that it lacks
pub proof fn law_whole_lines(s: Seq<char>)
    ensures
        repo::whole_lines(Seq::empty()) == Seq::<char>::empty(),
        repo::whole_lines(s + seq!['\n']) == s + seq!['\n'],
        s.len() > 0 && s.last() != '\n' ==> repo::whole_lines(s) == s + seq!['\n'],
{
    assert((s + seq!['\n']).last() == '\n');
    assert(s.push('\n') =~= s + seq!['\n']);
}

/// The numbers of some lines are all of those from the first to the last
pub proof fn law_line_numbers(first: nat, last: nat, line: usize)
    requires
        last <= usize::MAX,
    ensures
        repo::line_numbers(first, last).contains(line) == (first <= line <= last),
        forall|i: int, j: int|
            0 <= i < j < repo::line_numbers(first, last).len() ==> repo::line_numbers(
                first,
                last,
            )[i] < repo::line_numbers(first, last)[j],
{
    let list = repo::line_numbers(first, last);
    if first <= line <= last {
        assert(list[line - first] == line);
    }
}

/// The lines of a section are those between its markers, and its marker lines those of
/// the start marker and then that of the end marker
pub proof fn law_section_lines(s: Seq<char>, section: SectionModel)
    requires
        repo::marked_section_spec(s, section) is Ok,
        section.header.first_line <= section.header.last_line < section.end_line,
        section.end_line <= usize::MAX,
    ensures
        ({
            let raw = repo::marked_section_spec(s, section)->Ok_0;
            let before = repo::line_numbers(
                section.header.first_line,
                section.header.last_line,
            );
            &&& raw.section == Some(section.name)
            &&& raw.options == section.header.options
            &&& raw.lines matches Some((from, to)) && from == section.header.last_line + 1 && to
                == section.end_line - 1
            &&& raw.marker_lines.last() == section.end_line
            &&& raw.marker_lines.drop_last() == before
        }),
{
    let raw = repo::marked_section_spec(s, section)->Ok_0;
    let before = repo::line_numbers(section.header.first_line, section.header.last_line);
    assert(raw.marker_lines.drop_last() =~= before);
}

/// A file marked whole has no section and no lines of its own, and the lines of its
/// marker are marker lines
pub proof fn law_file_lines(s: Seq<char>, header: HeaderModel)
    requires
        repo::marked_file_spec(s, header) is Ok,
    ensures
        ({
            let raw = repo::marked_file_spec(s, header)->Ok_0;
            &&& raw.section is None
            &&& raw.lines is None
            &&& raw.options == header.options
            &&& raw.marker_lines == repo::line_numbers(header.first_line, header.last_line)
        }),
{
}

/// Whether code is what a marker marks in a file: with the options for the repo applied
/// to it, and those for the docs kept apart
pub open spec fn is_marked(code: CodeModel, file: Seq<char>, raw: RawModel) -> bool {
    let own = raw.options.filter(|option: OptionModel| option.side == OptionSide::Repo);
    let docs = raw.options.filter(|option: OptionModel| option.side == OptionSide::Doc);
    &&& code.id == repo::code_id_spec(file, raw.section)
    &&& code.file == file
    &&& code.section == raw.section
    &&& code.lines == raw.lines
    &&& code.marker_lines == raw.marker_lines
    &&& code.options == own
    &&& code.doc_options == docs
    &&& apply::apply_options_spec(raw.raw, own) matches Ok(content) && content == code.content
    &&& apply::placeholders_spec(own, code.content) == Ok::<_, Seq<char>>(code.placeholders)
}

/// A marker adds its code when the options for the repo fit it. When they don't, it adds
/// a problem with its file in place of code
pub proof fn law_marked_code(scan: RepoModel, file: Seq<char>, raw: RawModel)
    requires
        repo::add_marked_spec(scan, file, raw) is Ok,
    ensures
        ({
            let after = repo::add_marked_spec(scan, file, raw)->Ok_0;
            let own = raw.options.filter(|option: OptionModel| option.side == OptionSide::Repo);
            &&& after.files == scan.files
            &&& if apply::apply_options_spec(raw.raw, own) is Ok {
                &&& after.problems == scan.problems
                &&& after.marked.len() == scan.marked.len() + 1
                &&& after.marked.drop_last() == scan.marked
                &&& is_marked(after.marked.last(), file, raw)
            } else {
                &&& after.marked == scan.marked
                &&& after.problems.len() == scan.problems.len() + 1
                &&& after.problems.drop_last() == scan.problems
                &&& after.problems.last().file == file
            }
        }),
{
    law_options_on_side(raw.options, OptionSide::Repo);
    law_options_on_side(raw.options, OptionSide::Doc);
    let after = repo::add_marked_spec(scan, file, raw)->Ok_0;
    let own = repo::on_side(raw.options, OptionSide::Repo);
    if apply::apply_options_spec(raw.raw, own) is Ok {
        assert(after.marked.drop_last() =~= scan.marked);
    } else {
        assert(after.problems.drop_last() =~= scan.problems);
    }
}

// ---------------------------------------------------------------------------
// A scan
// ---------------------------------------------------------------------------

/// Whether a scan goes on from another: what was found stays, and each of `count`
/// markers in a file adds code or a problem
spec fn goes_on(before: RepoModel, after: RepoModel, file: Seq<char>, count: nat) -> bool {
    &&& before.marked.is_prefix_of(after.marked)
    &&& before.problems.is_prefix_of(after.problems)
    &&& before.files == after.files
    &&& after.marked.len() + after.problems.len() == before.marked.len() + before.problems.len()
        + count
    &&& forall|i: int|
        before.marked.len() <= i < after.marked.len() ==> (#[trigger] after.marked[i]).file == file
    &&& forall|i: int|
        before.problems.len() <= i < after.problems.len() ==> (
        #[trigger] after.problems[i]).file == file
}

proof fn lemma_goes_on(scan: RepoModel, file: Seq<char>, raw: RawModel)
    requires
        repo::add_marked_spec(scan, file, raw) is Ok,
    ensures
        goes_on(scan, repo::add_marked_spec(scan, file, raw)->Ok_0, file, 1),
{
    law_marked_code(scan, file, raw);
    let after = repo::add_marked_spec(scan, file, raw)->Ok_0;
    assert(after.marked.take(scan.marked.len() as int) =~= scan.marked);
    assert(after.problems.take(scan.problems.len() as int) =~= scan.problems);
}

proof fn lemma_goes_on_twice(
    first: RepoModel,
    second: RepoModel,
    third: RepoModel,
    file: Seq<char>,
    one: nat,
    other: nat,
)
    requires
        goes_on(first, second, file, one),
        goes_on(second, third, file, other),
    ensures
        goes_on(first, third, file, one + other),
{
    let a = first.marked.len() as int;
    let b = first.problems.len() as int;
    let m = second.marked.len() as int;
    let p = second.problems.len() as int;
    assert(third.marked.take(m) == second.marked);
    assert(third.problems.take(p) == second.problems);
    assert(second.marked.take(a) == first.marked);
    assert(second.problems.take(b) == first.problems);
    assert(third.marked.take(a) =~= third.marked.take(m).take(a));
    assert(third.problems.take(b) =~= third.problems.take(p).take(b));
    assert forall|i: int| a <= i < third.marked.len() implies (#[trigger] third.marked[i]).file
        == file by {
        if i < m {
            assert(third.marked.take(m)[i] == second.marked[i]);
        }
    }
    assert forall|i: int| b <= i < third.problems.len() implies (
    #[trigger] third.problems[i]).file == file by {
        if i < p {
            assert(third.problems.take(p)[i] == second.problems[i]);
        }
    }
}

proof fn lemma_sections(
    scan: RepoModel,
    file: Seq<char>,
    s: Seq<char>,
    sections: Seq<SectionModel>,
)
    requires
        repo::add_sections_spec(scan, file, s, sections) is Ok,
    ensures
        goes_on(
            scan,
            repo::add_sections_spec(scan, file, s, sections)->Ok_0,
            file,
            sections.len(),
        ),
    decreases sections.len(),
{
    if sections.len() == 0 {
        assert(scan.marked.take(scan.marked.len() as int) =~= scan.marked);
        assert(scan.problems.take(scan.problems.len() as int) =~= scan.problems);
    } else {
        let rest = sections.drop_last();
        lemma_sections(scan, file, s, rest);
        let before = repo::add_sections_spec(scan, file, s, rest)->Ok_0;
        let raw = repo::marked_section_spec(s, sections.last())->Ok_0;
        lemma_goes_on(before, file, raw);
        let after = repo::add_marked_spec(before, file, raw)->Ok_0;
        lemma_goes_on_twice(scan, before, after, file, rest.len(), 1);
    }
}

/// How many markers a text has
pub open spec fn marker_count(s: Seq<char>) -> nat {
    let found = markers::markers_spec(s);
    found.sections.len() + if found.file is Some {
        1nat
    } else {
        0nat
    }
}

/// A file is kept with its text and markers. What was found before it stays, and each of
/// its markers adds code or a problem with it, as does each marker that can't be read
pub proof fn law_scanned_file(scan: RepoModel, file: Seq<char>, s: Seq<char>)
    requires
        repo::scan_file_spec(scan, file, s) is Ok,
    ensures
        ({
            let after = repo::scan_file_spec(scan, file, s)->Ok_0;
            let unread = markers::markers_spec(s).problems.len();
            &&& after.files == scan.files.push(
                FileModel { file, text: s, markers: markers::markers_spec(s) },
            )
            &&& scan.marked.is_prefix_of(after.marked)
            &&& scan.problems.is_prefix_of(after.problems)
            &&& after.marked.len() + after.problems.len() == scan.marked.len()
                + scan.problems.len() + unread + marker_count(s)
            &&& after.problems.len() >= scan.problems.len() + unread
            &&& forall|i: int|
                scan.marked.len() <= i < after.marked.len() ==> (
                #[trigger] after.marked[i]).file == file
            &&& forall|i: int|
                scan.problems.len() <= i < after.problems.len() ==> (
                #[trigger] after.problems[i]).file == file
        }),
{
    let found = markers::markers_spec(s);
    let noted = RepoModel {
        problems: scan.problems + repo::file_problems(file, found.problems),
        ..scan
    };
    assert(noted.problems.take(scan.problems.len() as int) =~= scan.problems);
    assert(noted.marked.take(scan.marked.len() as int) =~= scan.marked);
    assert(goes_on(scan, noted, file, found.problems.len()));
    let with_file = repo::add_file_spec(noted, file, s, found.file)->Ok_0;
    let one: nat = if found.file is Some {
        1
    } else {
        0
    };
    if let Some(header) = found.file {
        lemma_goes_on(noted, file, repo::marked_file_spec(s, header)->Ok_0);
    } else {
        assert(noted.problems.take(noted.problems.len() as int) =~= noted.problems);
    }
    assert(goes_on(noted, with_file, file, one));
    lemma_goes_on_twice(scan, noted, with_file, file, found.problems.len(), one);
    lemma_sections(with_file, file, s, found.sections);
    let next = repo::add_sections_spec(with_file, file, s, found.sections)->Ok_0;
    lemma_goes_on_twice(
        scan,
        with_file,
        next,
        file,
        found.problems.len() + one,
        found.sections.len(),
    );
    let n = noted.problems.len() as int;
    assert(with_file.problems.len() >= n);
}

/// Whether files are those of a list of paths and texts, in order
pub open spec fn are_kept(files: Seq<FileModel>, list: Seq<(Seq<char>, Seq<char>)>) -> bool {
    &&& files.len() == list.len()
    &&& forall|i: int|
        0 <= i < list.len() ==> (#[trigger] files[i]).file == list[i].0 && files[i].text
            == list[i].1
}

proof fn lemma_one_more_file(
    before: Seq<FileModel>,
    list: Seq<(Seq<char>, Seq<char>)>,
    added: FileModel,
)
    requires
        list.len() > 0,
        are_kept(before, list.drop_last()),
        added.file == list.last().0,
        added.text == list.last().1,
    ensures
        are_kept(before.push(added), list),
{
    let files = before.push(added);
    let head = list.drop_last();
    assert forall|i: int| 0 <= i < list.len() implies (#[trigger] files[i]).file == list[i].0
        && files[i].text == list[i].1 by {
        if i < head.len() {
            assert(files[i] == before[i]);
            assert(head[i] == list[i]);
        }
    }
}

/// All files are kept, in order
#[verifier::spinoff_prover]
#[verifier::rlimit(50)]
pub proof fn law_scanned_files(list: Seq<(Seq<char>, Seq<char>)>)
    requires
        repo::scan_spec(list) is Ok,
    ensures
        are_kept(repo::scan_spec(list)->Ok_0.files, list),
    decreases list.len(),
{
    if list.len() > 0 {
        let head = list.drop_last();
        let (file, s) = list.last();
        assert(repo::scan_spec(head) is Ok);
        law_scanned_files(head);
        let before = repo::scan_spec(head)->Ok_0;
        assert(repo::scan_spec(list) == repo::scan_file_spec(before, file, s));
        assert(repo::scan_file_spec(before, file, s)->Ok_0.files == before.files.push(
            FileModel { file, text: s, markers: markers::markers_spec(s) },
        )) by {
            law_scanned_file(before, file, s);
        }
        lemma_one_more_file(
            before.files,
            list,
            FileModel { file, text: s, markers: markers::markers_spec(s) },
        );
    }
}

} // verus!
