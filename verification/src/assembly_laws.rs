//! What holds of assemblies and the modules they are made of.

use crate::docs;
use crate::docs::AssemblyModel;
use crate::eval;
use crate::lines;
use crate::text;
use crate::text_laws;
use vstd::prelude::*;

verus! {

// ---------------------------------------------------------------------------
// Modules
// ---------------------------------------------------------------------------

/// A line `include::modules/<name>.adoc[` names a module, where the name and its
/// extension are what the pattern finds
pub proof fn law_included_module(name: Seq<char>, rest: Seq<char>)
    requires
        name.len() > 0,
        docs::search_spec(
            docs::MODULE_NAME_PATTERN@,
            name + ".adoc"@ + ("["@ + rest),
        ) == Ok::<_, Seq<char>>(Some((Seq::<char>::empty(), name + ".adoc"@, "["@ + rest))),
    ensures
        docs::included_spec("include::modules/"@ + (name + ".adoc"@ + ("["@ + rest))) == Ok::<
            _,
            Seq<char>,
        >(Some(name)),
{
    let prefix = "include::modules/"@;
    let file = name + ".adoc"@;
    let line = prefix + (file + ("["@ + rest));
    assert(line.take(prefix.len() as int) =~= prefix);
    assert(line.skip(prefix.len() as int) =~= file + ("["@ + rest));
    assert(file.skip(name.len() as int) =~= ".adoc"@);
    assert(file.take(name.len() as int) =~= name);
    assert(("["@ + rest).take("["@.len() as int) =~= "["@);
}

/// Another line names none
pub proof fn law_no_module(line: Seq<char>)
    requires
        !"include::modules/"@.is_prefix_of(line),
    ensures
        docs::included_spec(line) == Ok::<_, Seq<char>>(None::<Seq<char>>),
{
}

/// The modules that lines include are those of the lines before one, and then the one
/// that it includes, if any
pub proof fn law_modules_in_order(before: Seq<Seq<char>>, line: Seq<char>)
    requires
        docs::all_included(before) is Ok,
        docs::included_spec(line) is Ok,
    ensures
        docs::all_included(Seq::empty()) == Ok::<_, Seq<char>>(Seq::<Seq<char>>::empty()),
        docs::all_included(before.push(line)) == Ok::<_, Seq<char>>(
            docs::all_included(before)->Ok_0 + match docs::included_spec(line)->Ok_0 {
                Some(name) => seq![name],
                None => Seq::empty(),
            },
        ),
{
    assert(before.push(line).drop_last() =~= before);
    let names = docs::all_included(before)->Ok_0;
    match docs::included_spec(line)->Ok_0 {
        Some(name) => {
            assert(names + seq![name] =~= names.push(name));
        },
        None => {
            assert(names + Seq::<Seq<char>>::empty() =~= names);
        },
    }
}

/// Whether the same names are there, each once
pub open spec fn are_names_once(found: Seq<Seq<char>>, names: Seq<Seq<char>>) -> bool {
    &&& found.no_duplicates()
    &&& forall|name: Seq<char>| #[trigger] found.contains(name) == names.contains(name)
}

/// An assembly is known by its file's name, and made of the modules that its text
/// includes, each once
pub proof fn law_assembly(path: Seq<char>, s: Seq<char>)
    requires
        docs::assembly_spec(path, s) is Ok,
    ensures
        ({
            let assembly = docs::assembly_spec(path, s)->Ok_0;
            &&& assembly.path == path
            &&& assembly.id == docs::file_stem_spec(path)
            &&& docs::all_included(lines::split(s, '\n')) matches Ok(names) && are_names_once(
                assembly.modules,
                names,
            )
            &&& docs::search_spec(docs::DOCUMENT_TITLE@, s) == Ok::<_, Seq<char>>(
                None::<(Seq<char>, Seq<char>, Seq<char>)>,
            ) ==> assembly.title == assembly.id
        }),
{
    let names = docs::all_included(lines::split(s, '\n'))->Ok_0;
    text::law_unique(names);
}

/// Names that come again are left out, and the others stay in order
pub proof fn law_unique_in_order(before: Seq<Seq<char>>, name: Seq<char>)
    ensures
        text::unique(before.push(name)) == if before.contains(name) {
            text::unique(before)
        } else {
            text::unique(before).push(name)
        },
{
    assert(before.push(name).drop_last() =~= before);
    text::law_unique(before);
}

/// A document's title is what follows the equals sign on its title line, without the
/// whitespace around it
pub proof fn law_title(
    before: Seq<char>,
    space: Seq<char>,
    title: Seq<char>,
    end: Seq<char>,
    after: Seq<char>,
    otherwise: Seq<char>,
)
    requires
        text::is_blank(space),
        text::is_blank(end),
        title.len() > 0,
        !text::is_white(title[0]),
        !text::is_white(title.last()),
    ensures
        docs::title_of(Some((before, "="@ + (space + title + end), after)), otherwise) == title,
        docs::title_of(None, otherwise) == otherwise,
{
    let rest = space + title + end;
    let line = "="@ + rest;
    assert(line.take("="@.len() as int) =~= "="@);
    assert(line.skip("="@.len() as int) =~= rest);
    text_laws::law_trimmed(space, title, end);
}

// ---------------------------------------------------------------------------
// Paths
// ---------------------------------------------------------------------------

/// The name of a file at a path is what is after the last slash, without the last dot
/// and what follows it
pub proof fn law_file_stem(dir: Seq<char>, name: Seq<char>, ext: Seq<char>)
    requires
        dir.len() > 0 ==> dir.last() == '/',
        name.len() > 0,
        !name.contains('/'),
        !ext.contains('/'),
        !ext.contains('.'),
        name + seq!['.'] + ext != seq!['.', '.'],
    ensures
        docs::file_stem_spec(dir + (name + seq!['.'] + ext)) == name,
{
    let file = name + seq!['.'] + ext;
    let path = dir + file;
    let parts = lines::split(path, '/');
    assert forall|i: int| 0 <= i < file.len() implies file[i] != '/' by {
        if i < name.len() {
            assert(name.contains(name[i]));
        } else if i > name.len() {
            assert(ext.contains(ext[i - name.len() - 1]));
        }
    }
    lines::lemma_split_single(file, '/');
    if dir.len() > 0 {
        assert(path =~= dir.drop_last().push('/') + file);
        lines::lemma_split_concat(dir.drop_last(), '/', file);
    } else {
        assert(path =~= file);
    }
    assert(parts.last() == file);
    reveal_strlit(".");
    reveal_strlit("..");
    assert(".."@ =~= seq!['.', '.']);
    assert(file.len() >= 2);
    assert(docs::components(parts).last() == file);
    lemma_name_stem(name, ext);
}

proof fn lemma_name_stem(name: Seq<char>, ext: Seq<char>)
    requires
        name.len() > 0,
        !ext.contains('.'),
    ensures
        docs::name_stem(name + seq!['.'] + ext) == name,
{
    let file = name + seq!['.'] + ext;
    let head = lines::split(name, '.');
    assert(file =~= name.push('.') + ext);
    lines::lemma_split_concat(name, '.', ext);
    lines::lemma_split_single(ext, '.');
    lines::lemma_split(name, '.');
    let parts = lines::split(file, '.');
    assert(parts =~= head.push(ext));
    assert(parts.drop_last() =~= head);
    lines::lemma_join_split(name, '.');
    reveal_strlit(".");
    assert("."@ =~= seq!['.']);
    if head.len() == 1 {
        assert(head =~= seq![head[0]]);
        assert(lines::join(head, seq!['.']) == head[0]);
    }
}

/// The files of modules are read in the order of the assemblies and of their modules
pub proof fn law_module_paths(before: Seq<AssemblyModel>, last: AssemblyModel)
    ensures
        ({
            let all = eval::module_paths_spec(before.push(last));
            let n = eval::module_paths_spec(before).len() as int;
            &&& all.len() == n + last.modules.len()
            &&& all.take(n) == eval::module_paths_spec(before)
            &&& forall|i: int|
                0 <= i < last.modules.len() ==> all[n + i] == "modules/"@ + (
                #[trigger] last.modules[i]) + ".adoc"@
        }),
        eval::module_paths_spec(Seq::empty()).len() == 0,
{
    assert(before.push(last).drop_last() =~= before);
    let all = eval::module_paths_spec(before.push(last));
    let first = eval::module_paths_spec(before);
    assert(all.take(first.len() as int) =~= first);
}

/// An assembly is read from each file, in order
pub proof fn law_assemblies_are_read(files: Seq<(Seq<char>, Seq<char>)>)
    requires
        eval::read_assemblies_spec(files) is Ok,
    ensures
        ({
            let found = eval::read_assemblies_spec(files)->Ok_0;
            &&& found.len() == files.len()
            &&& forall|i: int|
                0 <= i < files.len() ==> docs::assembly_spec(
                    (#[trigger] files[i]).0,
                    files[i].1,
                ) == Ok::<_, Seq<char>>(found[i])
        }),
    decreases files.len(),
{
    if files.len() > 0 {
        let head = files.drop_last();
        law_assemblies_are_read(head);
        let found = eval::read_assemblies_spec(files)->Ok_0;
        assert forall|i: int| 0 <= i < files.len() implies docs::assembly_spec(
            (#[trigger] files[i]).0,
            files[i].1,
        ) == Ok::<_, Seq<char>>(found[i]) by {
            if i < head.len() {
                assert(head[i] == files[i]);
            }
        }
    }
}

// ---------------------------------------------------------------------------
// Comments
// ---------------------------------------------------------------------------

/// Whether a line of a module is a comment
pub open spec fn is_comment(line: Seq<char>) -> bool {
    line.len() >= 2 && line[0] == '/' && line[1] == '/'
}

/// A module without its comments is all its other lines, each with the line end it had
pub proof fn law_without_comments(list: Seq<Seq<char>>, count: int)
    requires
        0 < count <= list.len(),
    ensures
        docs::without_comments(list, 0) == Seq::<char>::empty(),
        docs::without_comments(list, count) == docs::without_comments(list, count - 1) + (
        if is_comment(list[count - 1]) {
            Seq::empty()
        } else if count < list.len() {
            list[count - 1] + seq!['\n']
        } else {
            list[count - 1]
        }),
{
    let line = list[count - 1];
    let ended = if count < list.len() {
        line.push('\n')
    } else {
        line
    };
    reveal_strlit("//");
    assert("//"@ =~= seq!['/', '/']);
    if is_comment(line) {
        assert(ended.take(2) =~= "//"@);
        assert("//"@.is_prefix_of(ended));
    }
    if "//"@.is_prefix_of(ended) {
        assert(ended.take(2)[0] == '/' && ended.take(2)[1] == '/');
        assert(ended[0] == '/' && ended[1] == '/');
    }
    let before = docs::without_comments(list, count - 1);
    assert(line.push('\n') =~= line + seq!['\n']);
    assert(before + Seq::<char>::empty() =~= before);
}

} // verus!
