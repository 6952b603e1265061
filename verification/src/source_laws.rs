//! What holds of where the docs come from and how they are read.

use crate::bytes;
use crate::config;
use crate::lines;
use crate::source::Docs;
use crate::source::GitDocs;
use crate::source::GitOutput;
use crate::source;
use crate::text::CharClass;
use crate::text;
use crate::text_laws;
use vstd::prelude::*;

verus! {

// ---------------------------------------------------------------------------
// Paths and URLs
// ---------------------------------------------------------------------------

/// An absolute path stays as it is under any directory. Another one comes after the
/// directory and one slash, which a directory may have already
pub proof fn law_joined_paths(dir: Seq<char>, path: Seq<char>)
    requires
        dir.len() == 0 || dir.last() != '/',
        path.len() == 0 || path[0] != '/',
    ensures
        source::joined(dir, seq!['/'] + path) == seq!['/'] + path,
        dir.len() > 0 ==> source::joined(dir, path) == dir + seq!['/'] + path,
        source::joined(dir.push('/'), path) == dir + seq!['/'] + path,
        source::joined(Seq::empty(), path) == path,
{
    reveal_strlit("/");
    assert("/"@ =~= seq!['/']);
    assert((seq!['/'] + path)[0] == '/');
    assert(dir.push('/') + path =~= dir + seq!['/'] + path);
    assert(Seq::<char>::empty() + path =~= path);
}

/// A clone's name is its URL with only ASCII letters and digits as they are
pub proof fn law_clone_name(url: Seq<char>)
    ensures
        source::clone_name(url).len() == url.len(),
        forall|i: int|
            0 <= i < url.len() ==> #[trigger] source::clone_name(url)[i] == if ('a' <= url[i] <= 'z')
                || ('A' <= url[i] <= 'Z') || ('0' <= url[i] <= '9') {
                url[i]
            } else {
                '_'
            },
        !source::clone_name(url).contains('/'),
{
}

/// Docs in a GitHub repository are linked to at their commit, whether or not the URL
/// ends with `.git`
pub proof fn law_links_to_github(first: GitDocs, second: GitDocs, rest: Seq<char>)
    requires
        first.url@ == "https://github.com/"@ + rest,
        second.url@ == "https://github.com/"@ + rest + ".git"@,
        !".git"@.is_suffix_of("https://github.com/"@ + rest),
    ensures
        Docs::Git(first).link_base_spec() == Some(
            "https://github.com/"@ + rest + "/blob/"@ + first.commit@ + "/"@,
        ),
        Docs::Git(second).link_base_spec() == Some(
            "https://github.com/"@ + rest + "/blob/"@ + second.commit@ + "/"@,
        ),
{
    let whole = "https://github.com/"@ + rest;
    assert(whole.take("https://github.com/"@.len() as int) =~= "https://github.com/"@);
    assert((whole + ".git"@).skip(whole.len() as int) =~= ".git"@);
    assert((whole + ".git"@).take(whole.len() as int) =~= whole);
}

/// Local docs have no links, nor have those of a repository that isn't on GitHub
pub proof fn law_no_links(root: String, other: GitDocs)
    requires
        !"https://github.com/"@.is_prefix_of(other.url@),
        !".git"@.is_suffix_of(other.url@),
    ensures
        Docs::Local(root).link_base_spec() is None,
        Docs::Git(other).link_base_spec() is None,
{
}

/// Docs links start with what is configured, whatever the docs are
pub proof fn law_configured_links(base: Seq<char>, docs: Docs)
    ensures
        config::docs_link_spec(Some(base), docs) == Some(base),
        config::docs_link_spec(None, docs) == docs.link_base_spec(),
{
}

/// Nothing in what is configured is scanned for markers, nor in the ignore directory
pub proof fn law_excludes(exclude: Seq<Seq<char>>, ignore_dir: Option<Seq<char>>, path: Seq<char>)
    ensures
        config::excludes_spec(exclude, ignore_dir).contains(path) == (exclude.contains(path)
            || (ignore_dir matches Some(dir) && path == dir + seq!['/'])),
{
    reveal_strlit("/");
    assert("/"@ =~= seq!['/']);
    let all = config::excludes_spec(exclude, ignore_dir);
    if let Some(dir) = ignore_dir {
        assert(all[all.len() - 1] == dir + seq!['/']);
        if exclude.contains(path) {
            let i = choose|i: int| 0 <= i < exclude.len() && exclude[i] == path;
            assert(all[i] == path);
        }
        if all.contains(path) {
            let i = choose|i: int| 0 <= i < all.len() && all[i] == path;
            if i < exclude.len() {
                assert(exclude[i] == path);
            }
        }
    }
}

// ---------------------------------------------------------------------------
// Commits
// ---------------------------------------------------------------------------

/// Whether a character is a hexadecimal digit
pub open spec fn is_hex(c: char) -> bool {
    ('0' <= c <= '9') || ('a' <= c <= 'f') || ('A' <= c <= 'F')
}

/// A reference is a full commit hash when it is forty hexadecimal digits
pub proof fn law_commit_hash(reference: Seq<char>)
    ensures
        source::is_commit_hash(reference) == (reference.len() == 40 && forall|i: int|
            0 <= i < reference.len() ==> is_hex(#[trigger] reference[i])),
{
    if forall|i: int| 0 <= i < reference.len() ==> is_hex(#[trigger] reference[i]) {
        lemma_narrow(reference);
        assert forall|i: int| 0 <= i < reference.len() implies CharClass::Hex.has(
            #[trigger] reference[i],
        ) by {
            assert(is_hex(reference[i]));
        }
    }
    if text::all_of(reference, CharClass::Hex) {
        assert forall|i: int| 0 <= i < reference.len() implies is_hex(#[trigger] reference[i]) by {
            assert(CharClass::Hex.has(reference[i]));
        }
        lemma_narrow(reference);
    }
}

proof fn lemma_narrow(s: Seq<char>)
    requires
        forall|i: int| 0 <= i < s.len() ==> is_hex(#[trigger] s[i]),
    ensures
        bytes::byte_len(s) == s.len(),
    decreases s.len(),
{
    if s.len() == 0 {
        assert(s =~= Seq::empty());
        assert(vstd::utf8::encode_utf8(Seq::<char>::empty()).len() == 0);
    } else {
        let head = s.drop_last();
        assert forall|i: int| 0 <= i < head.len() implies is_hex(#[trigger] head[i]) by {
            assert(head[i] == s[i]);
        }
        lemma_narrow(head);
        assert(is_hex(s[s.len() - 1]));
        bytes::lemma_byte_len_push(head, s.last());
        assert(head.push(s.last()) =~= s);
    }
}

/// A commit is shown by its first twelve characters, or all of them
pub proof fn law_short_commit(commit: Seq<char>)
    ensures
        source::short_commit(commit).is_prefix_of(commit),
        source::short_commit(commit).len() == if commit.len() < 12 {
            commit.len()
        } else {
            12
        },
{
    assert(commit.take(commit.len() as int) =~= commit);
}

// ---------------------------------------------------------------------------
// Files
// ---------------------------------------------------------------------------

/// Whether a file was read
pub open spec fn was_read(
    entries: Seq<(Seq<char>, Option<Seq<char>>)>,
    path: Seq<char>,
) -> bool {
    exists|i: int| 0 <= i < entries.len() && (#[trigger] entries[i]).0 == path
}

proof fn lemma_was_read(entries: Seq<(Seq<char>, Option<Seq<char>>)>, path: Seq<char>)
    ensures
        source::cached(entries, path) is Some == was_read(entries, path),
    decreases entries.len(),
{
    if entries.len() > 0 {
        let head = entries.drop_last();
        lemma_was_read(head, path);
        if entries.last().0 == path {
            assert(entries[entries.len() - 1].0 == path);
        }
        if was_read(head, path) {
            let i = choose|i: int| 0 <= i < head.len() && (#[trigger] head[i]).0 == path;
            assert(entries[i].0 == path);
        }
        if was_read(entries, path) {
            let i = choose|i: int| 0 <= i < entries.len() && (#[trigger] entries[i]).0 == path;
            if i < head.len() {
                assert(head[i].0 == path);
            }
        }
    }
}

/// The files to read are all those that weren't, in order
pub proof fn law_unread_files(
    entries: Seq<(Seq<char>, Option<Seq<char>>)>,
    paths: Seq<Seq<char>>,
)
    ensures
        source::unread(entries, paths) == paths.filter(
            |path: Seq<char>| !was_read(entries, path),
        ),
    decreases paths.len(),
{
    reveal(Seq::filter);
    if paths.len() > 0 {
        law_unread_files(entries, paths.drop_last());
        lemma_was_read(entries, paths.last());
    }
}

/// Whether a text is one word
pub open spec fn is_word(s: Seq<char>) -> bool {
    s.len() > 0 && forall|i: int| 0 <= i < s.len() ==> !text::is_white(#[trigger] s[i])
}

/// A line `<mode> <kind> <oid>`, a tab and a path adds the object's ID to those of the
/// lines before it
pub proof fn law_listed_object(
    before: Seq<Seq<char>>,
    mode: Seq<char>,
    kind: Seq<char>,
    oid: Seq<char>,
    path: Seq<char>,
)
    requires
        is_word(mode),
        is_word(kind),
        is_word(oid),
    ensures
        source::oids_in(
            before.push(mode + seq![' '] + (kind + seq![' '] + (oid + seq!['\t'] + path))),
        ) == source::oids_in(before).push(oid),
{
    let last = oid + seq!['\t'] + path;
    let middle = kind + seq![' '] + last;
    let line = mode + seq![' '] + middle;
    lemma_words(mode);
    lemma_words(kind);
    lemma_words(oid);
    assert(!CharClass::Solid.has(' ') && !CharClass::Solid.has('\t'));
    text_laws::law_runs_in_order(mode, ' ', middle, CharClass::Solid);
    text_laws::law_runs_in_order(kind, ' ', last, CharClass::Solid);
    text_laws::law_runs_in_order(oid, '\t', path, CharClass::Solid);
    let words = text::runs(line, CharClass::Solid);
    assert(words[2] == oid);
    assert(before.push(line).drop_last() =~= before);
}

proof fn lemma_words(word: Seq<char>)
    requires
        is_word(word),
    ensures
        forall|i: int| 0 <= i < word.len() ==> CharClass::Solid.has(#[trigger] word[i]),
{
    assert forall|i: int| 0 <= i < word.len() implies CharClass::Solid.has(#[trigger] word[i]) by {
        assert(!text::is_white(word[i]));
    }
}

/// A line `<oid> missing` tells that an object is, after those of the lines before it.
/// Another line tells nothing
pub proof fn law_absent_object(before: Seq<Seq<char>>, oid: Seq<char>, other: Seq<char>)
    requires
        !" missing"@.is_suffix_of(other),
    ensures
        source::absent(before.push(oid + " missing"@)) == source::absent(before).push(oid),
        source::absent(before.push(other)) == source::absent(before),
{
    let line = oid + " missing"@;
    assert(line.skip(oid.len() as int) =~= " missing"@);
    assert(line.take(oid.len() as int) =~= oid);
    assert(before.push(line).drop_last() =~= before);
    assert(before.push(other).drop_last() =~= before);
}

/// The missing objects are all of those asked for that are reported so, in order
pub proof fn law_missing_objects(oids: Seq<Seq<char>>, gone: Seq<Seq<char>>)
    ensures
        source::missing_of(oids, gone) == oids.filter(|oid: Seq<char>| gone.contains(oid)),
    decreases oids.len(),
{
    reveal(Seq::filter);
    if oids.len() > 0 {
        law_missing_objects(oids.drop_last(), gone);
    }
}

// ---------------------------------------------------------------------------
// Git
// ---------------------------------------------------------------------------

/// What git prints is its answer when it succeeds. When it fails, the error holds its
/// arguments and what it complains of
pub proof fn law_git(args: Seq<Seq<char>>, output: GitOutput)
    ensures
        match source::git_spec(args, output) {
            Ok(answer) => output.success && answer == output.stdout@,
            Err(error) => !output.success && error == "git "@ + lines::join(args, " "@)
                + " failed: "@ + text::trimmed(output.stderr@),
        },
{
}

/// The commit that was fetched, and the root of a checkout, are what git answers without
/// the whitespace around it
pub proof fn law_answers_are_trimmed(
    output: GitOutput,
    dir: Seq<char>,
    before: Seq<char>,
    answer: Seq<char>,
    after: Seq<char>,
)
    requires
        output.success,
        output.stdout@ == before + answer + after,
        text::is_blank(before),
        text::is_blank(after),
        answer.len() > 0,
        !text::is_white(answer[0]),
        !text::is_white(answer.last()),
    ensures
        source::fetched_spec(output) == Ok::<_, Seq<char>>(answer),
        config::git_root_spec(dir, true, output.stdout@) == Ok::<_, Seq<char>>(answer),
        config::git_root_spec(dir, false, output.stdout@) is Err,
{
    text_laws::law_trimmed(before, answer, after);
}

/// A clone is bare, of the repository at its URL, and without blobs until they are needed
pub proof fn law_new_clone(url: Seq<char>)
    ensures
        ({
            let runs = source::init_clone_spec(url);
            &&& runs[0][0] == "init"@
            &&& runs[0].contains("--bare"@)
            &&& runs[1] == seq!["remote"@, "add"@, "origin"@, url]
            &&& runs.contains(seq!["config"@, "remote.origin.promisor"@, "true"@])
            &&& runs.contains(
                seq!["config"@, "remote.origin.partialclonefilter"@, "blob:none"@],
            )
        }),
{
    let runs = source::init_clone_spec(url);
    assert(runs[0][2] == "--bare"@);
    assert(runs[2] == seq!["config"@, "remote.origin.promisor"@, "true"@]);
    assert(runs[3] == seq!["config"@, "remote.origin.partialclonefilter"@, "blob:none"@]);
}

/// What is fetched is one reference of the origin, alone, without its history and
/// without blobs
pub proof fn law_fetched(reference: Seq<char>)
    ensures
        ({
            let args = source::fetch_args_spec(reference);
            let n = args.len() as int;
            &&& args[0] == "fetch"@
            &&& args[n - 2] == "origin"@
            &&& args[n - 1] == reference
            &&& args.contains("--depth=1"@)
            &&& args.contains("--filter=blob:none"@)
            &&& args.contains("--no-tags"@)
        }),
{
    let args = source::fetch_args_spec(reference);
    assert(args[2] == "--no-tags"@);
    assert(args[3] == "--depth=1"@);
    assert(args[4] == "--filter=blob:none"@);
}

/// All objects that are missing are fetched from the origin at once
pub proof fn law_fetched_objects(oids: Seq<Seq<char>>)
    ensures
        ({
            let args = source::fetch_blobs_spec(oids);
            let n = args.len() - oids.len();
            &&& args.skip(n) == oids
            &&& args[n - 1] == "origin"@
            &&& args.contains("fetch"@)
        }),
{
    let args = source::fetch_blobs_spec(oids);
    let n = args.len() - oids.len();
    assert(args.skip(n) =~= oids);
    assert(args[2] == "fetch"@);
}

/// Local docs are where their path leads, if that is a directory. A repository is where
/// its directory is, if it is one, and at its URL otherwise
pub proof fn law_docs_are_found(root: Seq<char>, git: Seq<char>, path: Seq<char>)
    ensures
        config::local_docs_spec(root, true, Ok(path)) == Ok::<_, Seq<char>>(path),
        config::local_docs_spec(root, false, Ok(path)) is Err,
        config::git_url_spec(git, Some(Ok(path))) == Ok::<_, Seq<char>>(path),
        config::git_url_spec(git, None) == Ok::<_, Seq<char>>(git),
{
}

} // verus!
