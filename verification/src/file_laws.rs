//! Which files are scanned, by how their paths look.

use crate::lines;
use crate::repo;
use vstd::prelude::*;

verus! {

// ---------------------------------------------------------------------------
// Pieces of a path
// ---------------------------------------------------------------------------

/// Whether `part` is one of the pieces of `s` between separators: it stands in it at index
/// `at`, with a separator or an end of `s` before and after it
pub open spec fn is_piece_at(s: Seq<char>, separator: char, part: Seq<char>, at: int) -> bool {
    &&& 0 <= at
    &&& at + part.len() <= s.len()
    &&& s.subrange(at, at + part.len()) == part
    &&& at > 0 ==> s[at - 1] == separator
    &&& at + part.len() < s.len() ==> s[at + part.len()] == separator
}

/// The first separator in a text
proof fn lemma_first(s: Seq<char>, separator: char) -> (i: int)
    requires
        s.contains(separator),
    ensures
        0 <= i < s.len(),
        s[i] == separator,
        !s.take(i).contains(separator),
    decreases s.len(),
{
    if s[0] == separator {
        assert(s.take(0) =~= Seq::empty());
        0
    } else {
        let rest = s.drop_first();
        let k = choose|k: int| 0 <= k < s.len() && s[k] == separator;
        assert(rest[k - 1] == separator);
        let i = lemma_first(rest, separator);
        let head = s.take(i + 1);
        assert forall|j: int| 0 <= j < head.len() implies #[trigger] head[j] != separator by {
            if j > 0 {
                assert(rest.take(i)[j - 1] == s[j]);
                assert(rest.take(i).contains(rest.take(i)[j - 1]));
            }
        }
        i + 1
    }
}

/// The pieces of a text are the parts of it with separators or ends around them
proof fn lemma_pieces(s: Seq<char>, separator: char, part: Seq<char>)
    requires
        !part.contains(separator),
    ensures
        lines::split(s, separator).contains(part) == (exists|at: int| #[trigger]
            is_piece_at(s, separator, part, at)),
    decreases s.len(),
{
    let pieces = lines::split(s, separator);
    if !s.contains(separator) {
        lines::lemma_split_single(s, separator);
        if pieces.contains(part) {
            assert(part == s);
            assert(s.subrange(0, s.len() as int) =~= s);
            assert(is_piece_at(s, separator, part, 0));
        }
        if exists|at: int| #[trigger] is_piece_at(s, separator, part, at) {
            let at = choose|at: int| #[trigger] is_piece_at(s, separator, part, at);
            assert(at == 0 && part.len() == s.len());
            assert(s.subrange(0, s.len() as int) =~= s);
            assert(pieces[0] == part);
        }
    } else {
        let i = lemma_first(s, separator);
        let rest = s.skip(i + 1);
        let others = lines::split(rest, separator);
        lines::lemma_split_first(s, separator, i);
        lemma_pieces(rest, separator, part);
        if pieces.contains(part) {
            let k = choose|k: int| 0 <= k < pieces.len() && pieces[k] == part;
            if k == 0 {
                assert(s.subrange(0, i) =~= s.take(i));
                assert(is_piece_at(s, separator, part, 0));
            } else {
                assert(others[k - 1] == part);
                let at = choose|at: int| #[trigger] is_piece_at(rest, separator, part, at);
                assert(s.subrange(at + i + 1, at + i + 1 + part.len()) =~= rest.subrange(
                    at,
                    at + part.len(),
                ));
                assert(is_piece_at(s, separator, part, at + i + 1));
            }
        }
        if exists|at: int| #[trigger] is_piece_at(s, separator, part, at) {
            let at = choose|at: int| #[trigger] is_piece_at(s, separator, part, at);
            if at <= i {
                if at > 0 {
                    assert(s.take(i)[at - 1] == separator);
                }
                if part.len() > i {
                    assert(s.subrange(0, part.len() as int)[i] == separator);
                    assert(part[i] == separator);
                }
                if part.len() < i {
                    assert(s.take(i)[part.len() as int] == separator);
                }
                assert(s.subrange(0, i) =~= s.take(i));
                assert(pieces[0] == part);
            } else {
                assert(s.subrange(at, at + part.len()) =~= rest.subrange(
                    at - i - 1,
                    at - i - 1 + part.len(),
                ));
                assert(is_piece_at(rest, separator, part, at - i - 1));
                let k = choose|k: int| 0 <= k < others.len() && others[k] == part;
                assert(pieces[k + 1] == part);
            }
        }
    }
}

/// The last piece of a text starts after its last separator
proof fn lemma_last_piece(s: Seq<char>, separator: char, start: int)
    requires
        starts_last(s, separator, start),
    ensures
        lines::split(s, separator).last() == s.skip(start),
        lines::split(s, separator).len() == 1 <==> start == 0,
        start > 0 ==> lines::split(s, separator) == lines::split(
            s.take(start - 1),
            separator,
        ).push(s.skip(start)),
{
    let last = s.skip(start);
    assert(!last.contains(separator)) by {
        if last.contains(separator) {
            let k = choose|k: int| 0 <= k < last.len() && last[k] == separator;
            assert(s[start + k] == separator);
        }
    }
    lines::lemma_split_single(last, separator);
    if start == 0 {
        assert(last =~= s);
    } else {
        let before = s.take(start - 1);
        assert(s =~= before.push(separator) + last);
        lines::lemma_split_concat(before, separator, last);
        lines::lemma_split(before, separator);
        assert(lines::split(before, separator) + seq![last] =~= lines::split(
            before,
            separator,
        ).push(last));
    }
}

/// Whether the last piece of a text starts at an index
pub open spec fn starts_last(s: Seq<char>, separator: char, start: int) -> bool {
    &&& 0 <= start <= s.len()
    &&& start > 0 ==> s[start - 1] == separator
    &&& forall|i: int| start <= i < s.len() ==> #[trigger] s[i] != separator
}

proof fn lemma_has_last(s: Seq<char>, separator: char) -> (start: int)
    ensures
        starts_last(s, separator, start),
    decreases s.len(),
{
    if s.len() == 0 || s.last() == separator {
        s.len() as int
    } else {
        let start = lemma_has_last(s.drop_last(), separator);
        assert forall|i: int| start <= i < s.len() implies #[trigger] s[i] != separator by {
            if i < s.len() - 1 {
                assert(s.drop_last()[i] == s[i]);
            }
        }
        start
    }
}

proof fn lemma_one_last(s: Seq<char>, separator: char, first: int, second: int)
    requires
        starts_last(s, separator, first),
        starts_last(s, separator, second),
    ensures
        first == second,
{
    if first < second {
        assert(s[second - 1] != separator);
    } else if second < first {
        assert(s[first - 1] != separator);
    }
}

// ---------------------------------------------------------------------------
// Extensions
// ---------------------------------------------------------------------------

/// Whether a path ends with a dot and an extension, after something of a file's name
pub open spec fn ends_with_ext(path: Seq<char>, extension: Seq<char>) -> bool {
    let dot = path.len() - extension.len() - 1;
    &&& dot >= 1
    &&& path[dot - 1] != '/'
    &&& path[dot] == '.'
    &&& path.skip(dot + 1) == extension
}

/// Whether the name of the file at a path has no dot, except perhaps at its start
pub open spec fn has_no_ext(path: Seq<char>) -> bool {
    exists|start: int| #[trigger]
        starts_last(path, '/', start) && forall|i: int|
            start < i < path.len() ==> #[trigger] path[i] != '.'
}

proof fn lemma_ext(path: Seq<char>, extension: Seq<char>)
    requires
        !extension.contains('.'),
        !extension.contains('/'),
    ensures
        extension.len() > 0 ==> (repo::ext_spec(path) == extension) == ends_with_ext(
            path,
            extension,
        ),
        extension.len() == 0 ==> (repo::ext_spec(path) == extension) == (ends_with_ext(
            path,
            extension,
        ) || has_no_ext(path)),
{
    if extension.len() == 0 {
        assert(extension =~= Seq::empty());
    }
    let start = lemma_has_last(path, '/');
    let name = path.skip(start);
    lemma_last_piece(path, '/', start);
    let after = lemma_has_last(name, '.');
    lemma_last_piece(name, '.', after);
    let parts = lines::split(name, '.');
    let last = name.skip(after);
    if after > 0 {
        let before = name.take(after - 1);
        lines::lemma_split(before, '.');
        if after == 1 {
            assert(before =~= Seq::empty());
            lines::lemma_split_single(before, '.');
            assert(parts =~= seq![before, last]);
        } else {
            assert(parts.len() > 2 || (parts.len() == 2 && parts[0].len() > 0)) by {
                if parts.len() == 2 {
                    let heads = lines::split(before, '.');
                    lines::lemma_join_split(before, '.');
                    assert(heads.len() == 1);
                    assert(heads[0] == before);
                    assert(parts[0] == heads[0]);
                }
            }
        }
    }
    // Where the path has an extension
    if after > 1 {
        assert(repo::ext_spec(path) == last);
        let dot = start + after - 1;
        assert(name[after - 1] == path[dot]);
        assert(path.skip(dot + 1) =~= last);
        assert(path[dot - 1] == name[after - 2]);
        assert(path[dot - 1] != '/');
        if last == extension {
            assert(ends_with_ext(path, extension));
        }
        assert(!has_no_ext(path)) by {
            if has_no_ext(path) {
                let other = choose|other: int| #[trigger]
                    starts_last(path, '/', other) && forall|i: int|
                        other < i < path.len() ==> #[trigger] path[i] != '.';
                lemma_one_last(path, '/', start, other);
                assert(path[dot] == '.');
            }
        }
    } else {
        assert(repo::ext_spec(path) == Seq::<char>::empty());
        assert forall|i: int| start < i < path.len() implies #[trigger] path[i] != '.' by {
            assert(path[i] == name[i - start]);
        }
        assert(has_no_ext(path));
    }
    if ends_with_ext(path, extension) {
        let dot = path.len() - extension.len() - 1;
        assert forall|i: int| dot < i < path.len() implies path[i] != '/' && path[i] != '.' by {
            assert(path.skip(dot + 1)[i - dot - 1] == path[i]);
            assert(extension.contains(path[i]));
        }
        assert(start < dot) by {
            if start > dot {
                assert(path[start - 1] == '/');
            }
            if start == dot && start > 0 {
                assert(path[start - 1] == '/');
            }
        }
        assert(starts_last(name, '.', dot + 1 - start)) by {
            assert(name[dot - start] == path[dot]);
            assert forall|i: int| dot + 1 - start <= i < name.len() implies #[trigger] name[i]
                != '.' by {
                assert(name[i] == path[start + i]);
            }
        }
        lemma_one_last(name, '.', after, dot + 1 - start);
        assert(last =~= extension);
    }
}

/// Whether a path has one of the extensions of files that are scanned
pub open spec fn has_scanned_ext(path: Seq<char>) -> bool {
    ||| can_carry_markers(path)
    ||| ends_with_ext(path, "txt"@)
    ||| ends_with_ext(path, "j2"@)
    ||| ends_with_ext(path, "tpl"@)
    ||| ends_with_ext(path, "template"@)
}

/// Whether a path is that of a file whose comments start with `#`: one without an extension
/// (as `Makefile`), or with one of those given
pub open spec fn can_carry_markers(path: Seq<char>) -> bool {
    ||| has_no_ext(path)
    ||| ends_with_ext(path, Seq::empty())
    ||| ends_with_ext(path, "yaml"@)
    ||| ends_with_ext(path, "yml"@)
    ||| ends_with_ext(path, "sh"@)
    ||| ends_with_ext(path, "bash"@)
    ||| ends_with_ext(path, "conf"@)
    ||| ends_with_ext(path, "cfg"@)
    ||| ends_with_ext(path, "env"@)
    ||| ends_with_ext(path, "py"@)
    ||| ends_with_ext(path, "ini"@)
    ||| ends_with_ext(path, "toml"@)
}

/// A file can hold markers exactly when it has no extension, or one of those of files whose
/// comments start with `#`
pub proof fn law_files_that_hold_markers(path: Seq<char>)
    ensures
        repo::holds_markers(path) == can_carry_markers(path),
{
    reveal_strlit("");
    reveal_strlit("yaml");
    reveal_strlit("yml");
    reveal_strlit("sh");
    reveal_strlit("bash");
    reveal_strlit("conf");
    reveal_strlit("cfg");
    reveal_strlit("env");
    reveal_strlit("py");
    reveal_strlit("ini");
    reveal_strlit("toml");
    reveal_strlit("Makefile");
    assert(""@ =~= Seq::empty());
    lemma_ext(path, ""@);
    lemma_ext(path, "yaml"@);
    lemma_ext(path, "yml"@);
    lemma_ext(path, "sh"@);
    lemma_ext(path, "bash"@);
    lemma_ext(path, "conf"@);
    lemma_ext(path, "cfg"@);
    lemma_ext(path, "env"@);
    lemma_ext(path, "py"@);
    lemma_ext(path, "ini"@);
    lemma_ext(path, "toml"@);
    if repo::file_name(path) == "Makefile"@ {
        let start = lemma_has_last(path, '/');
        lemma_last_piece(path, '/', start);
        assert forall|i: int| start < i < path.len() implies #[trigger] path[i] != '.' by {
            assert(path.skip(start)[i - start] == path[i]);
        }
        assert(has_no_ext(path));
    }
}

/// Whether a path is one to scan: it isn't empty, isn't in a `node_modules` directory, starts
/// with nothing that is excluded, and looks like a text file
pub open spec fn is_scanned(path: Seq<char>, exclude: Seq<Seq<char>>) -> bool {
    &&& path.len() > 0
    &&& !(exists|at: int| #[trigger] is_piece_at(path, '/', "node_modules"@, at))
    &&& forall|i: int|
        0 <= i < exclude.len() ==> !((#[trigger] exclude[i]).len() <= path.len() && path.take(
            exclude[i].len() as int,
        ) == exclude[i])
    &&& has_scanned_ext(path)
}

proof fn lemma_scanned(path: Seq<char>, exclude: Seq<Seq<char>>)
    ensures
        repo::is_listed(path, exclude) == is_scanned(path, exclude),
{
    reveal_strlit("node_modules");
    reveal_strlit("txt");
    reveal_strlit("j2");
    reveal_strlit("tpl");
    reveal_strlit("template");
    lemma_pieces(path, '/', "node_modules"@);
    law_files_that_hold_markers(path);
    lemma_ext(path, "txt"@);
    lemma_ext(path, "j2"@);
    lemma_ext(path, "tpl"@);
    lemma_ext(path, "template"@);
    assert forall|i: int| 0 <= i < exclude.len() implies (#[trigger] exclude[i]).is_prefix_of(path)
        == (exclude[i].len() <= path.len() && path.take(exclude[i].len() as int)
        == exclude[i]) by {
        if exclude[i].is_prefix_of(path) {
            assert(path.take(exclude[i].len() as int) =~= exclude[i]);
        }
    }
}

/// The files to scan are the paths in the listing that are to be scanned, in order, and no
/// others
pub proof fn law_files_are_listed(list: Seq<Seq<char>>, exclude: Seq<Seq<char>>)
    ensures
        repo::listed_files(list, exclude) == list.filter(
            |path: Seq<char>| is_scanned(path, exclude),
        ),
    decreases list.len(),
{
    reveal(Seq::filter);
    if list.len() > 0 {
        law_files_are_listed(list.drop_last(), exclude);
        lemma_scanned(list.last(), exclude);
    }
}

} // verus!
