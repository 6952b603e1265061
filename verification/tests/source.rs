use asadoc::config::{
    configured_docs, default_ignore_dir, git_docs, git_root, local_docs, open_git, AsadocConfig, DocsChoice, Links,
    RawAsciidoc, RawConfig,
};
use asadoc::source::{
    after_fetch, clone_dir, fetch_args, fetch_blobs, fetch_commit, git, has_pinned_commit, init_clone, join_path,
    listed_oids, missing, try_git, Docs, GitOutput, ReadStep,
};

#[test]
fn docs_are_a_path_or_a_repository() -> Result<(), String> {
    let mut raw = RawAsciidoc {
        path: Some("../docs".to_owned()),
        git: None,
        reference: None,
        assemblies: vec![],
    };
    assert!(matches!(
        configured_docs("asadoc.yaml", "/repo", &raw)?,
        DocsChoice::Local(path) if path == "/repo/../docs"
    ));
    raw.git = Some("https://example.com/docs".to_owned());
    assert_eq!(
        configured_docs("asadoc.yaml", "/repo", &raw).err(),
        Some("asadoc.yaml: `docs.asciidoc` needs either `path`, or `git` and `ref`".to_owned())
    );
    raw.path = None;
    assert_eq!(
        configured_docs("asadoc.yaml", "/repo", &raw).err(),
        Some("asadoc.yaml: `docs.asciidoc.git` needs a `ref` (branch, tag or commit)".to_owned())
    );
    raw.reference = Some("main".to_owned());
    assert!(matches!(
        configured_docs("asadoc.yaml", "/repo", &raw)?,
        DocsChoice::Git { git, reference } if git == "https://example.com/docs" && reference == "main"
    ));
    Ok(())
}

#[test]
fn docs_are_opened_or_not() {
    assert!(matches!(
        local_docs("d", true, Ok("/d".to_owned())),
        Ok(Docs::Local(root)) if root == "/d"
    ));
    assert_eq!(
        local_docs("d", false, Ok("/d".to_owned())).err(),
        Some("docs checkout not found at d".to_owned())
    );
    assert_eq!(
        local_docs("d", true, Err("gone".to_owned())).err(),
        Some("resolving the docs checkout d: gone".to_owned())
    );
    assert_eq!(git_docs("url", None), Ok("url".to_owned()));
    assert_eq!(git_docs("dir", Some(Ok("/dir".to_owned()))), Ok("/dir".to_owned()));
    assert_eq!(
        git_docs("dir", Some(Err("gone".to_owned()))),
        Err("resolving the docs repository dir: gone".to_owned())
    );
    assert_eq!(git_root("/x", true, "/x\n"), Ok("/x".to_owned()));
    assert_eq!(
        git_root("/x", false, ""),
        Err("/x isn't inside a git checkout".to_owned())
    );
}

#[test]
fn the_configuration_excludes_the_ignore_directory() {
    let raw = RawConfig {
        docs: RawAsciidoc {
            path: None,
            git: None,
            reference: None,
            assemblies: vec!["a.adoc".to_owned()],
        },
        ignore_dir: default_ignore_dir(),
        exclude: vec!["vendor/".to_owned()],
        links: Links { repo: Some("r".to_owned()), docs: None },
    };
    let docs = open_git("https://github.com/o/d.git", "main", "0123456789abcdef", "/cache");
    assert_eq!(docs.describe(), "https://github.com/o/d.git at main (0123456789ab)");
    let config = AsadocConfig::load(
        raw,
        docs,
        "/repo".to_owned(),
        "/repo/.asadoc-ignore".to_owned(),
        Some(".asadoc-ignore".to_owned()),
    );
    assert_eq!(config.exclude, ["vendor/", ".asadoc-ignore/"]);
    assert_eq!(config.assemblies, ["a.adoc"]);
    assert_eq!(config.links.repo, Some("r".to_owned()));
    assert_eq!(
        config.links.docs,
        Some("https://github.com/o/d/blob/0123456789abcdef/".to_owned())
    );
    let local = Docs::Local("/docs".to_owned());
    assert_eq!(local.describe(), "/docs");
    assert_eq!(local.local_modules_dir(), Some("/docs/modules".to_owned()));
    assert_eq!(local.default_link_base(), None);
    assert_eq!(open_git("https://gitlab.com/o/d", "m", "c", "/c").default_link_base(), None);
}

#[test]
fn files_are_read_from_git_once() -> Result<(), String> {
    let Docs::Git(mut docs) = open_git("url", "main", "c0ffee", "/cache") else {
        return Err("not git".to_owned());
    };
    let ReadStep::Run(look_up) = docs.read("modules/a.adoc") else {
        return Err("known already".to_owned());
    };
    assert_eq!(look_up, ["rev-parse", "--verify", "--quiet", "c0ffee:modules/a.adoc"]);
    let found = GitOutput { success: true, stdout: "abc\n".to_owned(), stderr: String::new() };
    let ReadStep::Run(blob) = docs.looked_up("modules/a.adoc", found) else {
        return Err("no such file".to_owned());
    };
    assert_eq!(blob, ["cat-file", "blob", "abc"]);
    let failed = GitOutput { success: false, stdout: String::new(), stderr: " gone \n".to_owned() };
    assert_eq!(
        docs.blob_read("modules/a.adoc", &blob, failed),
        Err("reading the file's blob: git cat-file blob abc failed: gone".to_owned())
    );
    let text = GitOutput { success: true, stdout: "= A\n".to_owned(), stderr: String::new() };
    assert_eq!(docs.blob_read("modules/a.adoc", &blob, text)?, "= A\n");
    assert!(matches!(docs.read("modules/a.adoc"), ReadStep::Known(Some(text)) if text == "= A\n"));
    let absent = GitOutput { success: false, stdout: String::new(), stderr: String::new() };
    assert!(matches!(docs.looked_up("b", absent), ReadStep::Known(None)));
    assert!(matches!(docs.read("b"), ReadStep::Known(None)));
    let paths = vec!["b".to_owned(), "_attributes".to_owned(), "modules/a.adoc".to_owned()];
    let listing = docs.prefetch(&paths).ok_or("nothing to list")?;
    assert_eq!(listing, ["ls-tree", "-r", "c0ffee", "--", "_attributes"]);
    assert_eq!(docs.prefetch(&vec!["b".to_owned()]), None);
    assert_eq!(Docs::Local("/d".to_owned()).prefetch(&paths), None);
    Ok(())
}

#[test]
fn missing_blobs_are_fetched() {
    let listing = "100644 blob aaa\tmodules/a b.adoc\n100644 blob bbb\tx\nodd\n";
    let oids = listed_oids(listing);
    assert_eq!(oids, ["aaa", "bbb"]);
    let gone = missing(&oids, "aaa blob 12\nbbb missing\nccc missing\n");
    assert_eq!(gone, ["bbb"]);
    assert_eq!(
        fetch_blobs(&gone).unwrap_or_default().join(" "),
        "-c fetch.negotiationAlgorithm=noop fetch --quiet --no-tags --no-write-fetch-head --filter=blob:none origin bbb"
    );
    assert_eq!(fetch_blobs(&vec![]), None);
}

#[test]
fn references_are_fetched_unless_pinned() {
    let hash = "0123456789abcdef0123456789abcdef01234567";
    assert_eq!(
        has_pinned_commit(hash).unwrap_or_default(),
        ["cat-file", "-e", "0123456789abcdef0123456789abcdef01234567^{commit}"]
    );
    assert_eq!(has_pinned_commit("main"), None);
    assert_eq!(
        fetch_args("main").join(" "),
        "fetch --quiet --no-tags --depth=1 --filter=blob:none origin main"
    );
    let failed = GitOutput { success: false, stdout: String::new(), stderr: "no ref\n".to_owned() };
    assert_eq!(
        after_fetch("url", "main", failed),
        Err("fetching main of url: git fetch --quiet --no-tags --depth=1 --filter=blob:none origin main failed: no ref".to_owned())
    );
    let fetched = GitOutput { success: true, stdout: String::new(), stderr: String::new() };
    assert_eq!(
        after_fetch("url", "main", fetched),
        Ok(vec!["rev-parse".to_owned(), "FETCH_HEAD".to_owned()])
    );
    let told = GitOutput { success: true, stdout: " abc\n".to_owned(), stderr: String::new() };
    assert_eq!(fetch_commit(told), Ok("abc".to_owned()));
}

#[test]
fn clones_have_a_place() {
    assert_eq!(
        clone_dir("/home/me/.cache/asadoc", "https://github.com/o/d.git"),
        "/home/me/.cache/asadoc/docs/https___github_com_o_d_git"
    );
    assert_eq!(join_path("/a/", "b"), "/a/b");
    assert_eq!(join_path("", "b"), "b");
    assert_eq!(join_path("/a", "/b"), "/b");
    let runs: Vec<String> = init_clone("url").iter().map(|args| args.join(" ")).collect();
    assert_eq!(
        runs,
        [
            "init --quiet --bare",
            "remote add origin url",
            "config remote.origin.promisor true",
            "config remote.origin.partialclonefilter blob:none"
        ]
    );
    let output = GitOutput { success: false, stdout: "x".to_owned(), stderr: "why\n".to_owned() };
    assert_eq!(try_git(output), None);
    let output = GitOutput { success: true, stdout: "x".to_owned(), stderr: String::new() };
    assert_eq!(git(&vec!["status".to_owned()], output), Ok("x".to_owned()));
}
