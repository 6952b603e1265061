//! Where the docs come from: a local checkout, or a git repository at a ref.
//!
//! For git, asadoc keeps a bare, blobless clone in its cache directory, fetches
//! just the ref (depth 1), and reads files straight from git objects, fetching
//! only the blobs it needs. That keeps huge docs repos cheap. Here is what to run
//! git with and what to make of its output; running it is left to the caller.

use crate::bytes;
use crate::docs;
use crate::lightbulb;
use crate::lines;
use crate::text;
use crate::text::CharClass;
use vstd::prelude::*;

verus! {

// ---------------------------------------------------------------------------
// Paths
// ---------------------------------------------------------------------------

/// A path under a directory, or a path by itself when it's absolute
pub open spec fn joined(dir: Seq<char>, path: Seq<char>) -> Seq<char> {
    if path.len() > 0 && path[0] == '/' {
        path
    } else if dir.len() == 0 || dir.last() == '/' {
        dir + path
    } else {
        dir + "/"@ + path
    }
}

/// A path under a directory, or a path by itself when it's absolute
pub fn join_path(dir: &str, path: &str) -> (whole: String)
    ensures
        whole@ == joined(dir@, path@),
{
    let path_chars = text::chars_of(path);
    if path_chars.len() > 0 && path_chars[0] == '/' {
        return path.to_owned();
    }
    let dir_chars = text::chars_of(dir);
    if dir_chars.len() == 0 || dir_chars[dir_chars.len() - 1] == '/' {
        let mut whole = dir.to_owned();
        whole.append(path);
        return whole;
    }
    text::surround(dir, "/", path)
}

/// A URL with `_` for all but ASCII letters and digits
pub open spec fn clone_name(url: Seq<char>) -> Seq<char> {
    Seq::new(
        url.len(),
        |i: int|
            if text::is_alphanumeric(url[i]) {
                url[i]
            } else {
                '_'
            },
    )
}

/// Where the clone of `url` lives in the cache
pub fn clone_dir(cache_dir: &str, url: &str) -> (dir: String)
    ensures
        dir@ == joined(joined(cache_dir@, "docs"@), clone_name(url@)),
{
    let chars = text::chars_of(url);
    let mut name = String::new();
    let mut i: usize = 0;
    assert(name@ =~= clone_name(url@).take(0));
    while i < chars.len()
        invariant
            i <= chars@.len(),
            chars@ == url@,
            name@ == clone_name(url@).take(i as int),
        decreases chars@.len() - i,
    {
        let c = chars[i];
        name.push(
            if text::is_ascii_alphanumeric(c) {
                c
            } else {
                '_'
            },
        );
        assert(name@ =~= clone_name(url@).take(i + 1));
        i = i + 1;
    }
    assert(clone_name(url@).take(i as int) =~= clone_name(url@));
    let all = join_path(cache_dir, "docs");
    join_path(all.as_str(), name.as_str())
}

// ---------------------------------------------------------------------------
// Running git
// ---------------------------------------------------------------------------

/// What running git came to
#[derive(Debug)]
pub struct GitOutput {
    pub success: bool,
    pub stdout: String,
    pub stderr: String,
}

/// Git's output, or None when it exits unsuccessfully
pub fn try_git(output: GitOutput) -> (stdout: Option<String>)
    ensures
        stdout == (if output.success {
            Some(output.stdout)
        } else {
            None
        }),
{
    if output.success {
        Some(output.stdout)
    } else {
        None
    }
}

/// How git failed
pub open spec fn git_failure(args: Seq<Seq<char>>, stderr: Seq<char>) -> Seq<char> {
    "git "@ + lines::join(args, " "@) + " failed: "@ + text::trimmed(stderr)
}

/// Git's output, or how it failed
pub open spec fn git_spec(args: Seq<Seq<char>>, output: GitOutput) -> Result<Seq<char>, Seq<char>> {
    if output.success {
        Ok(output.stdout@)
    } else {
        Err(git_failure(args, output.stderr@))
    }
}

/// Git's output, or how it failed
pub fn git(args: &Vec<String>, output: GitOutput) -> (stdout: Result<String, String>)
    ensures
        match stdout {
            Ok(stdout) => git_spec(text::views(args@), output) == Ok::<_, Seq<char>>(stdout@),
            Err(error) => git_spec(text::views(args@), output) == Err::<Seq<char>, _>(error@),
        },
{
    if output.success {
        return Ok(output.stdout);
    }
    let command = lines::join_texts(args, " ");
    let mut message = text::surround("git ", command.as_str(), " failed: ");
    let reason = text::trim(output.stderr.as_str());
    message.append(reason.as_str());
    Err(message)
}

/// The texts of some literals
fn args_of(list: &[&str]) -> (args: Vec<String>)
    ensures
        args@.len() == list@.len(),
        forall|i: int| 0 <= i < list@.len() ==> (#[trigger] args@[i])@ == list@[i]@,
{
    let mut args: Vec<String> = Vec::new();
    let mut i: usize = 0;
    while i < list.len()
        invariant
            i <= list@.len(),
            args@.len() == i,
            forall|k: int| 0 <= k < i ==> (#[trigger] args@[k])@ == list@[k]@,
        decreases list@.len() - i,
    {
        args.push(list[i].to_owned());
        i = i + 1;
    }
    args
}

/// What makes a directory a bare, blobless clone of `url` with nothing fetched yet
pub open spec fn init_clone_spec(url: Seq<char>) -> Seq<Seq<Seq<char>>> {
    seq![
        seq!["init"@, "--quiet"@, "--bare"@],
        seq!["remote"@, "add"@, "origin"@, url],
        seq!["config"@, "remote.origin.promisor"@, "true"@],
        seq!["config"@, "remote.origin.partialclonefilter"@, "blob:none"@],
    ]
}

/// Arguments for git, one run after the other
pub open spec fn runs_view(runs: Seq<Vec<String>>) -> Seq<Seq<Seq<char>>> {
    Seq::new(runs.len(), |i: int| text::views(runs[i]@))
}

/// What makes a directory a bare, blobless clone of `url` with nothing fetched yet
pub fn init_clone(url: &str) -> (runs: Vec<Vec<String>>)
    ensures
        runs_view(runs@) == init_clone_spec(url@),
{
    let mut runs: Vec<Vec<String>> = Vec::new();
    runs.push(args_of(&["init", "--quiet", "--bare"]));
    runs.push(args_of(&["remote", "add", "origin", url]));
    runs.push(args_of(&["config", "remote.origin.promisor", "true"]));
    runs.push(args_of(&["config", "remote.origin.partialclonefilter", "blob:none"]));
    proof {
        let expected = init_clone_spec(url@);
        assert(text::views(runs@[0]@) =~= expected[0]);
        assert(text::views(runs@[1]@) =~= expected[1]);
        assert(text::views(runs@[2]@) =~= expected[2]);
        assert(text::views(runs@[3]@) =~= expected[3]);
        assert(runs_view(runs@) =~= expected);
    }
    runs
}

/// Whether a reference is a full commit hash
pub open spec fn is_commit_hash(reference: Seq<char>) -> bool {
    bytes::byte_len(reference) == 40 && text::all_of(reference, CharClass::Hex)
}

/// What to look a commit up with in the clone
pub open spec fn commit_args(reference: Seq<char>) -> Seq<Seq<char>> {
    seq!["cat-file"@, "-e"@, reference + "^{commit}"@]
}

/// What to look `reference` up with in the clone when it's a full commit hash. Such a
/// commit can't have changed, so when it's there there's no need to ask the remote
pub fn has_pinned_commit(reference: &str) -> (args: Option<Vec<String>>)
    ensures
        match args {
            Some(args) => is_commit_hash(reference@) && text::views(args@) == commit_args(
                reference@,
            ),
            None => !is_commit_hash(reference@),
        },
{
    if bytes::byte_length(reference) != 40 || !text::is_all(reference, CharClass::Hex) {
        return None;
    }
    let mut commit = reference.to_owned();
    commit.append("^{commit}");
    let args = args_of(&["cat-file", "-e", commit.as_str()]);
    assert(text::views(args@) =~= commit_args(reference@));
    Some(args)
}

/// What fetches just a reference (depth 1, no blobs)
pub open spec fn fetch_args_spec(reference: Seq<char>) -> Seq<Seq<char>> {
    seq![
        "fetch"@,
        "--quiet"@,
        "--no-tags"@,
        "--depth=1"@,
        "--filter=blob:none"@,
        "origin"@,
        reference,
    ]
}

/// What fetches just `reference` (depth 1, no blobs)
pub fn fetch_args(reference: &str) -> (args: Vec<String>)
    ensures
        text::views(args@) == fetch_args_spec(reference@),
{
    let args = args_of(
        &[
            "fetch",
            "--quiet",
            "--no-tags",
            "--depth=1",
            "--filter=blob:none",
            "origin",
            reference,
        ],
    );
    assert(text::views(args@) =~= fetch_args_spec(reference@));
    args
}

/// What tells the commit that was fetched
pub open spec fn fetch_head_args() -> Seq<Seq<char>> {
    seq!["rev-parse"@, "FETCH_HEAD"@]
}

/// What to do once a reference was fetched
pub open spec fn after_fetch_spec(url: Seq<char>, reference: Seq<char>, output: GitOutput) -> Result<
    Seq<Seq<char>>,
    Seq<char>,
> {
    match lightbulb::in_context(
        git_spec(fetch_args_spec(reference), output),
        "fetching "@ + reference + " of "@ + url,
    ) {
        Ok(_) => Ok(fetch_head_args()),
        Err(error) => Err(error),
    }
}

/// What tells the commit that was fetched, given what fetching it came to
pub fn after_fetch(url: &str, reference: &str, output: GitOutput) -> (next: Result<
    Vec<String>,
    String,
>)
    ensures
        match next {
            Ok(args) => after_fetch_spec(url@, reference@, output) == Ok::<_, Seq<char>>(
                text::views(args@),
            ),
            Err(error) => after_fetch_spec(url@, reference@, output) == Err::<Seq<Seq<char>>, _>(
                error@,
            ),
        },
{
    let args = fetch_args(reference);
    match git(&args, output) {
        Err(error) => {
            let mut context = text::surround("fetching ", reference, " of ");
            context.append(url);
            Err(lightbulb::error_in(context.as_str(), error))
        },
        Ok(_) => {
            let next = args_of(&["rev-parse", "FETCH_HEAD"]);
            assert(text::views(next@) =~= fetch_head_args());
            Ok(next)
        },
    }
}

/// The commit that was fetched
pub open spec fn fetched_spec(output: GitOutput) -> Result<Seq<char>, Seq<char>> {
    match lightbulb::in_context(
        git_spec(fetch_head_args(), output),
        "resolving the fetched commit"@,
    ) {
        Ok(commit) => Ok(text::trimmed(commit)),
        Err(error) => Err(error),
    }
}

/// The commit that was fetched, given what telling it came to
pub fn fetch_commit(output: GitOutput) -> (commit: Result<String, String>)
    ensures
        match commit {
            Ok(commit) => fetched_spec(output) == Ok::<_, Seq<char>>(commit@),
            Err(error) => fetched_spec(output) == Err::<Seq<char>, _>(error@),
        },
{
    let args = args_of(&["rev-parse", "FETCH_HEAD"]);
    assert(text::views(args@) =~= fetch_head_args());
    match git(&args, output) {
        Err(error) => Err(lightbulb::error_in("resolving the fetched commit", error)),
        Ok(commit) => Ok(text::trim(commit.as_str())),
    }
}

// ---------------------------------------------------------------------------
// Files read so far
// ---------------------------------------------------------------------------

/// The files read so far: the text of each, or that there's no such file
#[derive(Debug)]
pub struct FileCache {
    pub entries: Vec<(String, Option<String>)>,
}

pub open spec fn cache_views(entries: Seq<(String, Option<String>)>) -> Seq<
    (Seq<char>, Option<Seq<char>>),
> {
    Seq::new(entries.len(), |i: int| (entries[i].0@, text::option_view(entries[i].1)))
}

impl View for FileCache {
    type V = Seq<(Seq<char>, Option<Seq<char>>)>;

    open spec fn view(&self) -> Seq<(Seq<char>, Option<Seq<char>>)> {
        cache_views(self.entries@)
    }
}

/// What was read last for a path, if anything
pub open spec fn cached(entries: Seq<(Seq<char>, Option<Seq<char>>)>, path: Seq<char>) -> Option<
    Option<Seq<char>>,
>
    decreases entries.len(),
{
    if entries.len() == 0 {
        None
    } else if entries.last().0 == path {
        Some(entries.last().1)
    } else {
        cached(entries.drop_last(), path)
    }
}

/// A file that may not be there, if it was read
pub open spec fn cached_view(file: Option<&Option<String>>) -> Option<Option<Seq<char>>> {
    match file {
        Some(file) => Some(text::option_view(*file)),
        None => None,
    }
}

impl FileCache {
    pub fn new() -> (cache: Self)
        ensures
            cache@ == Seq::<(Seq<char>, Option<Seq<char>>)>::empty(),
    {
        let cache = FileCache { entries: Vec::new() };
        assert(cache@ =~= Seq::empty());
        cache
    }

    /// What was read for a path, if anything
    pub fn get(&self, path: &str) -> (file: Option<&Option<String>>)
        ensures
            cached_view(file) == cached(self@, path@),
    {
        let ghost all = self@;
        let mut i: usize = self.entries.len();
        assert(all.take(i as int) =~= all);
        while i > 0
            invariant
                i <= self.entries@.len(),
                all == self@,
                cached(all, path@) == cached(all.take(i as int), path@),
            decreases i,
        {
            proof {
                assert(all.take(i as int).last() == (
                    self.entries@[i - 1].0@,
                    text::option_view(self.entries@[i - 1].1),
                ));
                assert(all.take(i as int).drop_last() =~= all.take(i - 1));
            }
            i = i - 1;
            if text::same(self.entries[i].0.as_str(), path) {
                return Some(&self.entries[i].1);
            }
        }
        None
    }

    /// Keeps what was read for a path
    pub fn insert(&mut self, path: &str, file: Option<String>)
        ensures
            final(self)@ == old(self)@.push((path@, text::option_view(file))),
    {
        let ghost before = self@;
        self.entries.push((path.to_owned(), file));
        assert(self@ =~= before.push((path@, text::option_view(file))));
    }
}

/// What was kept for a path is what's there for it, and other paths are as before
pub proof fn law_cache(
    entries: Seq<(Seq<char>, Option<Seq<char>>)>,
    path: Seq<char>,
    file: Option<Seq<char>>,
    other: Seq<char>,
)
    ensures
        cached(entries.push((path, file)), path) == Some(file),
        other != path ==> cached(entries.push((path, file)), other) == cached(entries, other),
{
    assert(entries.push((path, file)).drop_last() =~= entries);
}

// ---------------------------------------------------------------------------
// Docs
// ---------------------------------------------------------------------------

/// A git repository at a commit
#[derive(Debug)]
pub struct GitDocs {
    pub url: String,
    pub reference: String,
    pub commit: String,
    /// The clone
    pub dir: String,
    /// Files read so far (the commit never changes, so neither do they)
    pub files: FileCache,
}

/// Where the docs come from
#[derive(Debug)]
pub enum Docs {
    /// A local checkout
    Local(String),
    Git(GitDocs),
}

/// The first characters of a commit
pub open spec fn short_commit(commit: Seq<char>) -> Seq<char> {
    if commit.len() <= 12 {
        commit
    } else {
        commit.take(12)
    }
}

/// A URL without `.git` at its end
pub open spec fn repo_url(url: Seq<char>) -> Seq<char> {
    match text::without_suffix(url, ".git"@) {
        Some(rest) => rest,
        None => url,
    }
}

impl Docs {
    /// For people: where the docs are
    pub open spec fn describe_spec(self) -> Seq<char> {
        match self {
            Docs::Local(root) => root@,
            Docs::Git(git) => git.url@ + " at "@ + git.reference@ + " ("@ + short_commit(
                git.commit@,
            ) + ")"@,
        }
    }

    /// For people: where the docs are
    pub fn describe(&self) -> (words: String)
        ensures
            words@ == self.describe_spec(),
    {
        match self {
            Docs::Local(root) => root.clone(),
            Docs::Git(git_docs) => {
                let chars = text::chars_of(git_docs.commit.as_str());
                let length: usize = if chars.len() <= 12 {
                    chars.len()
                } else {
                    12
                };
                let short = text::text_of(&chars, 0, length);
                assert(short@ =~= short_commit(git_docs.commit@));
                let mut words = text::surround(
                    git_docs.url.as_str(),
                    " at ",
                    git_docs.reference.as_str(),
                );
                words.append(" (");
                words.append(short.as_str());
                words.append(")");
                words
            },
        }
    }

    /// The local directory holding the modules, when there is one to watch
    pub fn local_modules_dir(&self) -> (dir: Option<String>)
        ensures
            match dir {
                Some(dir) => self is Local && dir@ == joined(self->Local_0@, "modules"@),
                None => self is Git,
            },
    {
        match self {
            Docs::Local(root) => Some(join_path(root.as_str(), "modules")),
            Docs::Git(_) => None,
        }
    }

    /// Base URL for links to docs files, for GitHub repositories
    pub open spec fn link_base_spec(self) -> Option<Seq<char>> {
        match self {
            Docs::Local(_) => None,
            Docs::Git(git) => if "https://github.com/"@.is_prefix_of(repo_url(git.url@)) {
                Some(repo_url(git.url@) + "/blob/"@ + git.commit@ + "/"@)
            } else {
                None
            },
        }
    }

    /// Base URL for links to docs files, for GitHub repositories
    pub fn default_link_base(&self) -> (base: Option<String>)
        ensures
            text::option_view(base) == self.link_base_spec(),
    {
        match self {
            Docs::Local(_) => None,
            Docs::Git(git_docs) => {
                let repo = match text::strip_suffix(git_docs.url.as_str(), ".git") {
                    Some(rest) => rest,
                    None => git_docs.url.clone(),
                };
                if text::starts_with(repo.as_str(), "https://github.com/") {
                    let mut base = text::surround(
                        repo.as_str(),
                        "/blob/",
                        git_docs.commit.as_str(),
                    );
                    base.append("/");
                    Some(base)
                } else {
                    None
                }
            },
        }
    }

    /// What to list before the given paths (files, or directories for everything under
    /// them) are read: git docs list the files not read yet, to fetch all their blobs at
    /// once
    pub fn prefetch(&self, paths: &Vec<String>) -> (args: Option<Vec<String>>)
        ensures
            match self {
                Docs::Local(_) => args is None,
                Docs::Git(git) => git.prefetched(text::views(paths@), args),
            },
    {
        match self {
            Docs::Local(_) => None,
            Docs::Git(git_docs) => git_docs.prefetch(paths),
        }
    }
}

/// What to do to read a file
#[derive(Debug)]
pub enum ReadStep {
    /// It was read before: its text, or that there's none
    Known(Option<String>),
    /// Run git with these arguments
    Run(Vec<String>),
}

/// What looks a file up in a commit
pub open spec fn look_up_args(commit: Seq<char>, path: Seq<char>) -> Seq<Seq<char>> {
    seq!["rev-parse"@, "--verify"@, "--quiet"@, commit + ":"@ + path]
}

/// What reads the blob that a look-up told
pub open spec fn blob_args(oid: Seq<char>) -> Seq<Seq<char>> {
    seq!["cat-file"@, "blob"@, text::trimmed(oid)]
}

/// The paths that weren't read yet
pub open spec fn unread(
    entries: Seq<(Seq<char>, Option<Seq<char>>)>,
    paths: Seq<Seq<char>>,
) -> Seq<Seq<char>>
    decreases paths.len(),
{
    if paths.len() == 0 {
        Seq::empty()
    } else if cached(entries, paths.last()) is Some {
        unread(entries, paths.drop_last())
    } else {
        unread(entries, paths.drop_last()).push(paths.last())
    }
}

impl GitDocs {
    /// What reading a file starts with: what's known of it, or looking it up. Resolving
    /// the path only needs trees, which the blobless clone has, so when that fails
    /// there's no such file
    pub fn read(&self, path: &str) -> (step: ReadStep)
        ensures
            match step {
                ReadStep::Known(file) => cached(self.files@, path@) == Some(
                    text::option_view(file),
                ),
                ReadStep::Run(args) => cached(self.files@, path@) is None && text::views(args@)
                    == look_up_args(self.commit@, path@),
            },
    {
        if let Some(file) = self.files.get(path) {
            return ReadStep::Known(docs::clone_text(file));
        }
        let place = text::surround(self.commit.as_str(), ":", path);
        let args = args_of(&["rev-parse", "--verify", "--quiet", place.as_str()]);
        assert(text::views(args@) =~= look_up_args(self.commit@, path@));
        ReadStep::Run(args)
    }

    /// What follows a look-up: there's no such file, or reading its blob
    pub fn looked_up(&mut self, path: &str, output: GitOutput) -> (step: ReadStep)
        ensures
            match step {
                ReadStep::Known(file) => !output.success && file is None && final(self).files@
                    == old(self).files@.push((path@, None)),
                ReadStep::Run(args) => output.success && final(self).files@ == old(self).files@
                    && text::views(args@) == blob_args(output.stdout@),
            },
            final(self).commit@ == old(self).commit@,
            final(self).url@ == old(self).url@,
            final(self).reference@ == old(self).reference@,
            final(self).dir@ == old(self).dir@,
    {
        match try_git(output) {
            None => {
                self.files.insert(path, None);
                ReadStep::Known(None)
            },
            Some(oid) => {
                let id = text::trim(oid.as_str());
                let args = args_of(&["cat-file", "blob", id.as_str()]);
                assert(text::views(args@) =~= blob_args(oid@));
                ReadStep::Run(args)
            },
        }
    }

    /// What follows reading a file's blob, with the arguments it was read with
    pub fn blob_read(&mut self, path: &str, args: &Vec<String>, output: GitOutput) -> (file: Result<
        String,
        String,
    >)
        ensures
            match file {
                Ok(file) => git_spec(text::views(args@), output) == Ok::<_, Seq<char>>(file@)
                    && final(self).files@ == old(self).files@.push((path@, Some(file@))),
                Err(error) => lightbulb::in_context(
                    git_spec(text::views(args@), output),
                    "reading the file's blob"@,
                ) == Err::<Seq<char>, _>(error@) && final(self).files@ == old(self).files@,
            },
            final(self).commit@ == old(self).commit@,
            final(self).url@ == old(self).url@,
            final(self).reference@ == old(self).reference@,
            final(self).dir@ == old(self).dir@,
    {
        match git(args, output) {
            Err(error) => Err(lightbulb::error_in("reading the file's blob", error)),
            Ok(file) => {
                self.files.insert(path, Some(file.clone()));
                Ok(file)
            },
        }
    }

    /// Whether some arguments list the files not read yet, or there are none
    pub open spec fn prefetched(self, paths: Seq<Seq<char>>, args: Option<Vec<String>>) -> bool {
        let wanted = unread(self.files@, paths);
        match args {
            Some(args) => wanted.len() > 0 && text::views(args@) == seq![
                "ls-tree"@,
                "-r"@,
                self.commit@,
                "--"@,
            ] + wanted,
            None => wanted.len() == 0,
        }
    }

    /// What lists the files at the given paths that weren't read yet; None when all were
    pub fn prefetch(&self, paths: &Vec<String>) -> (args: Option<Vec<String>>)
        ensures
            self.prefetched(text::views(paths@), args),
    {
        let ghost views = text::views(paths@);
        let ghost start = seq!["ls-tree"@, "-r"@, self.commit@, "--"@];
        let mut args = args_of(&["ls-tree", "-r", self.commit.as_str(), "--"]);
        let mut i: usize = 0;
        assert(text::views(args@) =~= start + unread(self.files@, views.take(0)));
        while i < paths.len()
            invariant
                i <= paths@.len(),
                views == text::views(paths@),
                start.len() == 4,
                text::views(args@) == start + unread(self.files@, views.take(i as int)),
            decreases paths@.len() - i,
        {
            proof {
                assert(views.take(i + 1).drop_last() =~= views.take(i as int));
                assert(views.take(i + 1).last() == paths@[i as int]@);
            }
            if self.files.get(paths[i].as_str()).is_none() {
                let path = paths[i].clone();
                proof {
                    text::lemma_views_push(args@, path);
                    let wanted = unread(self.files@, views.take(i as int));
                    assert((start + wanted).push(path@) =~= start + wanted.push(path@));
                }
                args.push(path);
            }
            i = i + 1;
        }
        proof {
            assert(views.take(i as int) =~= views);
            assert(text::views(args@).len() == args@.len());
        }
        if args.len() == 4 {
            None
        } else {
            Some(args)
        }
    }
}

// ---------------------------------------------------------------------------
// Blobs to fetch
// ---------------------------------------------------------------------------

/// The object IDs in a listing of a tree: the third word of each line
pub open spec fn oids_in(list: Seq<Seq<char>>) -> Seq<Seq<char>>
    decreases list.len(),
{
    if list.len() == 0 {
        Seq::empty()
    } else {
        let head = oids_in(list.drop_last());
        let words = text::runs(list.last(), CharClass::Solid);
        if words.len() > 2 {
            head.push(words[2])
        } else {
            head
        }
    }
}

/// The object IDs in a listing of a tree: `<mode> blob <oid>\t<path>` on each line
pub fn listed_oids(listing: &str) -> (oids: Vec<String>)
    ensures
        text::views(oids@) == oids_in(lines::lines_of(listing@)),
{
    let list = lines::lines(listing);
    let ghost views = text::views(list@);
    let mut oids: Vec<String> = Vec::new();
    let mut i: usize = 0;
    assert(text::views(oids@) =~= oids_in(views.take(0)));
    while i < list.len()
        invariant
            i <= list@.len(),
            views == text::views(list@),
            text::views(oids@) == oids_in(views.take(i as int)),
        decreases list@.len() - i,
    {
        proof {
            assert(views.take(i + 1).drop_last() =~= views.take(i as int));
            assert(views.take(i + 1).last() == list@[i as int]@);
        }
        let words = text::runs_of(list[i].as_str(), CharClass::Solid);
        assert(text::views(words@).len() == words@.len());
        if words.len() > 2 {
            let oid = words[2].clone();
            proof {
                assert(text::views(words@)[2] == words@[2]@);
                text::lemma_views_push(oids@, oid);
            }
            oids.push(oid);
        }
        i = i + 1;
    }
    assert(views.take(i as int) =~= views);
    oids
}

/// The objects that a report of git's says are missing: `<oid> missing` for each
pub open spec fn absent(list: Seq<Seq<char>>) -> Seq<Seq<char>>
    decreases list.len(),
{
    if list.len() == 0 {
        Seq::empty()
    } else {
        let head = absent(list.drop_last());
        match text::without_suffix(list.last(), " missing"@) {
            Some(oid) => head.push(oid),
            None => head,
        }
    }
}

fn absent_in(report: &str) -> (oids: Vec<String>)
    ensures
        text::views(oids@) == absent(lines::lines_of(report@)),
{
    let list = lines::lines(report);
    let ghost views = text::views(list@);
    let mut oids: Vec<String> = Vec::new();
    let mut i: usize = 0;
    assert(text::views(oids@) =~= absent(views.take(0)));
    while i < list.len()
        invariant
            i <= list@.len(),
            views == text::views(list@),
            text::views(oids@) == absent(views.take(i as int)),
        decreases list@.len() - i,
    {
        proof {
            assert(views.take(i + 1).drop_last() =~= views.take(i as int));
            assert(views.take(i + 1).last() == list@[i as int]@);
        }
        if let Some(oid) = text::strip_suffix(list[i].as_str(), " missing") {
            proof {
                text::lemma_views_push(oids@, oid);
            }
            oids.push(oid);
        }
        i = i + 1;
    }
    assert(views.take(i as int) =~= views);
    oids
}

/// Those of some objects that are missing
pub open spec fn missing_of(oids: Seq<Seq<char>>, gone: Seq<Seq<char>>) -> Seq<Seq<char>>
    decreases oids.len(),
{
    if oids.len() == 0 {
        Seq::empty()
    } else if gone.contains(oids.last()) {
        missing_of(oids.drop_last(), gone).push(oids.last())
    } else {
        missing_of(oids.drop_last(), gone)
    }
}

/// The objects not in the cache yet, given what git reported of them
pub fn missing(oids: &Vec<String>, report: &str) -> (gone: Vec<String>)
    ensures
        text::views(gone@) == missing_of(
            text::views(oids@),
            absent(lines::lines_of(report@)),
        ),
{
    let reported = absent_in(report);
    let ghost views = text::views(oids@);
    let ghost all = text::views(reported@);
    let mut gone: Vec<String> = Vec::new();
    let mut i: usize = 0;
    assert(text::views(gone@) =~= missing_of(views.take(0), all));
    while i < oids.len()
        invariant
            i <= oids@.len(),
            views == text::views(oids@),
            all == text::views(reported@),
            text::views(gone@) == missing_of(views.take(i as int), all),
        decreases oids@.len() - i,
    {
        proof {
            assert(views.take(i + 1).drop_last() =~= views.take(i as int));
            assert(views.take(i + 1).last() == oids@[i as int]@);
        }
        if text::list_contains(&reported, oids[i].as_str()) {
            let oid = oids[i].clone();
            proof {
                text::lemma_views_push(gone@, oid);
            }
            gone.push(oid);
        }
        i = i + 1;
    }
    assert(views.take(i as int) =~= views);
    gone
}

/// What fetches some objects
pub open spec fn fetch_blobs_spec(oids: Seq<Seq<char>>) -> Seq<Seq<char>> {
    seq![
        "-c"@,
        "fetch.negotiationAlgorithm=noop"@,
        "fetch"@,
        "--quiet"@,
        "--no-tags"@,
        "--no-write-fetch-head"@,
        "--filter=blob:none"@,
        "origin"@,
    ] + oids
}

/// What fetches some objects; None when there are none to fetch
pub fn fetch_blobs(oids: &Vec<String>) -> (args: Option<Vec<String>>)
    ensures
        match args {
            Some(args) => oids@.len() > 0 && text::views(args@) == fetch_blobs_spec(
                text::views(oids@),
            ),
            None => oids@.len() == 0,
        },
{
    if oids.len() == 0 {
        return None;
    }
    let mut args = args_of(
        &[
            "-c",
            "fetch.negotiationAlgorithm=noop",
            "fetch",
            "--quiet",
            "--no-tags",
            "--no-write-fetch-head",
            "--filter=blob:none",
            "origin",
        ],
    );
    let mut more = text::clone_texts(oids);
    args.append(&mut more);
    assert(text::views(args@) =~= fetch_blobs_spec(text::views(oids@)));
    Some(args)
}

/// The objects to fetch are those of the given ones that git says are missing
pub proof fn law_missing(oids: Seq<Seq<char>>, gone: Seq<Seq<char>>, oid: Seq<char>)
    ensures
        missing_of(oids, gone).contains(oid) == (oids.contains(oid) && gone.contains(oid)),
    decreases oids.len(),
{
    let list = missing_of(oids, gone);
    if oids.len() > 0 {
        let rest = oids.drop_last();
        let head = missing_of(rest, gone);
        law_missing(rest, gone, oid);
        if list.contains(oid) {
            let i = choose|i: int| 0 <= i < list.len() && list[i] == oid;
            if i < head.len() {
                assert(head[i] == oid);
                assert(head.contains(oid));
                let k = choose|k: int| 0 <= k < rest.len() && rest[k] == oid;
                assert(oids[k] == oid);
            } else {
                assert(oids[oids.len() - 1] == oid);
            }
        }
        if oids.contains(oid) && gone.contains(oid) {
            let k = choose|k: int| 0 <= k < oids.len() && oids[k] == oid;
            if k < rest.len() {
                assert(rest[k] == oid);
                assert(head.contains(oid));
                let i = choose|i: int| 0 <= i < head.len() && head[i] == oid;
                assert(list[i] == oid);
            } else {
                assert(list[head.len() as int] == oid);
            }
        }
    }
}

} // verus!
