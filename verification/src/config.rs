//! `asadoc.yaml`: where the docs are, which of them to check, and where the
//! directory of ignored doc blocks is. Paths are relative to the config file.
//!
//! ```yaml
//! docs:
//!   asciidoc:                  # the docs' format (the only one, for now)
//!     git: https://github.com/openshift/openshift-docs
//!     ref: main                # branch, tag or commit
//!     # or, instead of git and ref, a local checkout: path: ../openshift-docs
//!     assemblies: [...]
//! ```

use crate::docs;
use crate::lightbulb;
use crate::source;
use crate::source::{Docs, FileCache, GitDocs};
use crate::text;
use vstd::prelude::*;

verus! {

pub const CONFIG_FILE: &'static str = "asadoc.yaml";

/// The directory of ignored doc blocks, unless the config file gives another
pub fn default_ignore_dir() -> (dir: String)
    ensures
        dir@ == ".asadoc-ignore"@,
{
    ".asadoc-ignore".to_owned()
}

/// The docs, as the config file gives them
#[derive(Debug)]
pub struct RawAsciidoc {
    /// A local docs checkout
    pub path: Option<String>,
    /// A docs git repository (URL, or local path), read at `reference`
    pub git: Option<String>,
    pub reference: Option<String>,
    /// Assemblies (relative to the docs root) whose code blocks must come
    /// from this repo
    pub assemblies: Vec<String>,
}

/// Base URLs for "source" links in the UI
#[derive(Debug)]
pub struct Links {
    /// e.g. <https://github.com/org/repo/blob/main>/
    pub repo: Option<String>,
    /// e.g. <https://github.com/org/docs/blob/main>/ (default for GitHub docs
    /// repos: the fetched commit)
    pub docs: Option<String>,
}

pub struct LinksModel {
    pub repo: Option<Seq<char>>,
    pub docs: Option<Seq<char>>,
}

impl View for Links {
    type V = LinksModel;

    open spec fn view(&self) -> LinksModel {
        LinksModel { repo: text::option_view(self.repo), docs: text::option_view(self.docs) }
    }
}

impl Clone for Links {
    fn clone(&self) -> (copy: Self)
        ensures
            copy == *self,
    {
        Links { repo: docs::clone_text(&self.repo), docs: docs::clone_text(&self.docs) }
    }
}

/// What the config file holds
#[derive(Debug)]
pub struct RawConfig {
    pub docs: RawAsciidoc,
    /// Directory of doc blocks that don't come from this repo
    pub ignore_dir: String,
    /// Repo paths (prefixes) never scanned for markers
    pub exclude: Vec<String>,
    pub links: Links,
}

/// Everything configured
#[derive(Debug)]
pub struct AsadocConfig {
    /// The git checkout the config file is in: where marked code is looked for
    pub repo_root: String,
    pub docs: Docs,
    pub assemblies: Vec<String>,
    pub ignore_dir: String,
    pub exclude: Vec<String>,
    pub links: Links,
}

/// The docs that a config file points to
#[derive(Debug)]
pub enum DocsChoice {
    /// A local checkout
    Local(String),
    /// A git repository (a URL, or a path) at a reference
    Git { git: String, reference: String },
}

pub enum ChoiceModel {
    Local(Seq<char>),
    Git { git: Seq<char>, reference: Seq<char> },
}

impl View for DocsChoice {
    type V = ChoiceModel;

    open spec fn view(&self) -> ChoiceModel {
        match self {
            DocsChoice::Local(path) => ChoiceModel::Local(path@),
            DocsChoice::Git { git, reference } => ChoiceModel::Git {
                git: git@,
                reference: reference@,
            },
        }
    }
}

/// The docs that a config file points to: a path, or a git repository and a reference,
/// and nothing else
pub open spec fn configured_spec(
    config_path: Seq<char>,
    dir: Seq<char>,
    path: Option<Seq<char>>,
    git: Option<Seq<char>>,
    reference: Option<Seq<char>>,
) -> Result<ChoiceModel, Seq<char>> {
    match (path, git, reference) {
        (Some(path), None, None) => Ok(ChoiceModel::Local(source::joined(dir, path))),
        (None, Some(git), Some(reference)) => Ok(ChoiceModel::Git { git, reference }),
        (None, Some(_), None) => Err(
            config_path + ": `docs.asciidoc.git` needs a `ref` (branch, tag or commit)"@,
        ),
        _ => Err(config_path + ": `docs.asciidoc` needs either `path`, or `git` and `ref`"@),
    }
}

/// The docs the config file at `path` (in `dir`) points to
pub fn configured_docs(path: &str, dir: &str, asciidoc: &RawAsciidoc) -> (choice: Result<
    DocsChoice,
    String,
>)
    ensures
        ({
            let expected = configured_spec(
                path@,
                dir@,
                text::option_view(asciidoc.path),
                text::option_view(asciidoc.git),
                text::option_view(asciidoc.reference),
            );
            match choice {
                Ok(choice) => expected == Ok::<_, Seq<char>>(choice@),
                Err(error) => expected == Err::<ChoiceModel, _>(error@),
            }
        }),
{
    match (&asciidoc.path, &asciidoc.git, &asciidoc.reference) {
        (Some(local_path), None, None) => Ok(
            DocsChoice::Local(source::join_path(dir, local_path.as_str())),
        ),
        (None, Some(git), Some(reference)) => Ok(
            DocsChoice::Git { git: git.clone(), reference: reference.clone() },
        ),
        (None, Some(_), None) => {
            let mut message = path.to_owned();
            message.append(": `docs.asciidoc.git` needs a `ref` (branch, tag or commit)");
            Err(message)
        },
        _ => {
            let mut message = path.to_owned();
            message.append(": `docs.asciidoc` needs either `path`, or `git` and `ref`");
            Err(message)
        },
    }
}

/// What resolving a path came to
pub open spec fn resolved_view(resolved: Result<String, String>) -> Result<Seq<char>, Seq<char>> {
    match resolved {
        Ok(path) => Ok(path@),
        Err(error) => Err(error@),
    }
}

/// The root of a local docs checkout
pub open spec fn local_docs_spec(
    root: Seq<char>,
    is_dir: bool,
    resolved: Result<Seq<char>, Seq<char>>,
) -> Result<Seq<char>, Seq<char>> {
    if !is_dir {
        Err("docs checkout not found at "@ + root)
    } else {
        lightbulb::in_context(resolved, "resolving the docs checkout "@ + root)
    }
}

/// A local docs checkout at `root`, given whether that's a directory and what resolving
/// it came to
pub fn local_docs(root: &str, is_dir: bool, resolved: Result<String, String>) -> (docs: Result<
    Docs,
    String,
>)
    ensures
        match docs {
            Ok(docs) => docs is Local && local_docs_spec(root@, is_dir, resolved_view(resolved))
                == Ok::<_, Seq<char>>(docs->Local_0@),
            Err(error) => local_docs_spec(root@, is_dir, resolved_view(resolved)) == Err::<
                Seq<char>,
                _,
            >(error@),
        },
{
    if !is_dir {
        let mut message = "docs checkout not found at ".to_owned();
        message.append(root);
        return Err(message);
    }
    match resolved {
        Ok(path) => Ok(Docs::Local(path)),
        Err(error) => {
            let mut context = "resolving the docs checkout ".to_owned();
            context.append(root);
            Err(lightbulb::error_in(context.as_str(), error))
        },
    }
}

/// Where a docs git repository is
pub open spec fn git_url_spec(
    git: Seq<char>,
    local: Option<Result<Seq<char>, Seq<char>>>,
) -> Result<Seq<char>, Seq<char>> {
    match local {
        Some(resolved) => lightbulb::in_context(
            resolved,
            "resolving the docs repository "@ + git,
        ),
        None => Ok(git),
    }
}

/// What resolving a directory came to, if it is one
pub open spec fn local_view(local: Option<Result<String, String>>) -> Option<
    Result<Seq<char>, Seq<char>>,
> {
    match local {
        Some(resolved) => Some(resolved_view(resolved)),
        None => None,
    }
}

/// Where the docs git repository `git` is: a directory, given what resolving it came to
/// when it is one, or else a URL
pub fn git_docs(git: &str, local: Option<Result<String, String>>) -> (url: Result<String, String>)
    ensures
        match url {
            Ok(url) => git_url_spec(git@, local_view(local)) == Ok::<_, Seq<char>>(url@),
            Err(error) => git_url_spec(git@, local_view(local)) == Err::<Seq<char>, _>(error@),
        },
{
    match local {
        Some(Ok(path)) => Ok(path),
        Some(Err(error)) => {
            let mut context = "resolving the docs repository ".to_owned();
            context.append(git);
            Err(lightbulb::error_in(context.as_str(), error))
        },
        None => Ok(git.to_owned()),
    }
}

/// The root of the git checkout that a directory is in
pub open spec fn git_root_spec(dir: Seq<char>, success: bool, stdout: Seq<char>) -> Result<
    Seq<char>,
    Seq<char>,
> {
    if success {
        Ok(text::trimmed(stdout))
    } else {
        Err(dir + " isn't inside a git checkout"@)
    }
}

/// The root of the git checkout that `dir` is in, given what git says of it
pub fn git_root(dir: &str, success: bool, stdout: &str) -> (root: Result<String, String>)
    ensures
        match root {
            Ok(root) => git_root_spec(dir@, success, stdout@) == Ok::<_, Seq<char>>(root@),
            Err(error) => git_root_spec(dir@, success, stdout@) == Err::<Seq<char>, _>(error@),
        },
{
    if success {
        Ok(text::trim(stdout))
    } else {
        let mut message = dir.to_owned();
        message.append(" isn't inside a git checkout");
        Err(message)
    }
}

/// What's never scanned for markers: what is configured, and the ignore directory when
/// it's in the repo, as it holds doc content and not code to match
pub open spec fn excludes_spec(exclude: Seq<Seq<char>>, ignore_dir: Option<Seq<char>>) -> Seq<
    Seq<char>,
> {
    match ignore_dir {
        Some(relative) => exclude.push(relative + "/"@),
        None => exclude,
    }
}

/// The base URL of docs links: the configured one, or that of a GitHub repository
pub open spec fn docs_link_spec(configured: Option<Seq<char>>, docs: Docs) -> Option<Seq<char>> {
    match configured {
        Some(base) => Some(base),
        None => docs.link_base_spec(),
    }
}

impl AsadocConfig {
    /// The configuration that a file holds, given the docs it points to, the checkout it's
    /// in, the ignore directory and that directory relative to the checkout when it's in it
    pub fn load(
        raw: RawConfig,
        docs: Docs,
        repo_root: String,
        ignore_dir: String,
        ignore_relative: Option<String>,
    ) -> (config: Self)
        ensures
            config.repo_root@ == repo_root@,
            config.docs == docs,
            text::views(config.assemblies@) == text::views(raw.docs.assemblies@),
            config.ignore_dir@ == ignore_dir@,
            text::views(config.exclude@) == excludes_spec(
                text::views(raw.exclude@),
                text::option_view(ignore_relative),
            ),
            config.links@ == (LinksModel {
                repo: text::option_view(raw.links.repo),
                docs: docs_link_spec(text::option_view(raw.links.docs), docs),
            }),
    {
        let docs_link = match raw.links.docs {
            Some(base) => Some(base),
            None => docs.default_link_base(),
        };
        let mut exclude = raw.exclude;
        if let Some(relative) = ignore_relative {
            let mut prefix = relative;
            prefix.append("/");
            proof {
                text::lemma_views_push(exclude@, prefix);
            }
            exclude.push(prefix);
        }
        AsadocConfig {
            repo_root,
            docs,
            assemblies: raw.docs.assemblies,
            ignore_dir,
            exclude,
            links: Links { repo: raw.links.repo, docs: docs_link },
        }
    }
}

/// A docs git repository at a commit of which no file was read yet
pub fn open_git(url: &str, reference: &str, commit: &str, dir: &str) -> (docs: Docs)
    ensures
        docs matches Docs::Git(git) && git.url@ == url@ && git.reference@ == reference@
            && git.commit@ == commit@ && git.dir@ == dir@ && git.files@.len() == 0,
{
    Docs::Git(
        GitDocs {
            url: url.to_owned(),
            reference: reference.to_owned(),
            commit: commit.to_owned(),
            dir: dir.to_owned(),
            files: FileCache::new(),
        },
    )
}

/// A local checkout and a git repository exclude each other: the docs are one of them
/// exactly when they're given as just that, and there's an error otherwise
pub proof fn law_docs_are_given_once(
    config_path: Seq<char>,
    dir: Seq<char>,
    path: Option<Seq<char>>,
    git: Option<Seq<char>>,
    reference: Option<Seq<char>>,
)
    ensures
        ({
            let choice = configured_spec(config_path, dir, path, git, reference);
            &&& (choice matches Ok(ChoiceModel::Local(_))) == (path is Some && git is None
                && reference is None)
            &&& (choice matches Ok(ChoiceModel::Git { .. })) == (path is None && git is Some
                && reference is Some)
        }),
{
}

} // verus!
