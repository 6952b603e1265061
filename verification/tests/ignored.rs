use asadoc::ignored::{is_ignore_reason, unused_path, IgnoredBlocks, IgnoredEntry};

#[test]
fn ignores_and_unignores_by_content() {
    // What the files of the ignore directory are after each change
    let mut files: Vec<IgnoredEntry> = Vec::new();
    let mut ignored_blocks = IgnoredBlocks::load(&files);
    for (content, reason, block_ref) in [
        ("$ oc get nodes\n", "manual-command", "mod/terminal-001"),
        ("  indented\n\nno trailing", "example-output", "mod/terminal-002"),
        // Same content again moves it; a name taken by other content gets a suffix
        ("$ oc get nodes\n", "example-output", "mod/terminal-002"),
    ] {
        let existing: Vec<String> = files.iter().map(|file| file.path.clone()).collect();
        let change = ignored_blocks.ignore(content, reason, block_ref, &None, &existing);
        files.retain(|file| !change.removed.contains(&file.path));
        files.push(IgnoredEntry {
            reason: reason.to_owned(),
            path: change.written,
            content: content.to_owned(),
        });
    }
    let mut reloaded_blocks = IgnoredBlocks::load(&files);
    assert_eq!(reloaded_blocks.reason_of("$ oc get nodes\n"), Some("example-output"));
    assert_eq!(
        reloaded_blocks.reason_of("  indented\n\nno trailing"),
        Some("example-output")
    );
    assert!(files
        .iter()
        .any(|file| file.path == "example-output/mod--terminal-002-2.txt"));
    let removed = reloaded_blocks.unignore("$ oc get nodes\n");
    files.retain(|file| !removed.contains(&file.path));
    assert_eq!(IgnoredBlocks::load(&files).entries.len(), 1);
}

#[test]
fn ignoring_replaces_other_content() {
    let files = vec![
        IgnoredEntry {
            reason: "no-repo-source".to_owned(),
            path: "no-repo-source/b.txt".to_owned(),
            content: "new\n".to_owned(),
        },
        IgnoredEntry {
            reason: "example-output".to_owned(),
            path: "example-output/z.txt".to_owned(),
            content: "old\n".to_owned(),
        },
        IgnoredEntry {
            reason: "example-output".to_owned(),
            path: "example-output/a.txt".to_owned(),
            content: "kept\n".to_owned(),
        },
        IgnoredEntry {
            reason: "unknown".to_owned(),
            path: "unknown/a.txt".to_owned(),
            content: "unread\n".to_owned(),
        },
    ];
    let mut blocks = IgnoredBlocks::load(&files);
    let paths: Vec<&str> = blocks.entries.iter().map(|entry| entry.path.as_str()).collect();
    assert_eq!(
        paths,
        ["example-output/a.txt", "example-output/z.txt", "no-repo-source/b.txt"]
    );
    let existing = vec!["example-output/z.txt".to_owned()];
    let change = blocks.ignore("new\n", "example-output", "z", &Some("old\n".to_owned()), &existing);
    assert_eq!(change.removed, ["no-repo-source/b.txt", "example-output/z.txt"]);
    // Its file is gone by then, so its name can be taken
    assert_eq!(change.written, "example-output/z.txt");
    assert_eq!(blocks.reason_of("old\n"), None);
    assert_eq!(blocks.reason_of("new\n"), Some("example-output"));
    assert_eq!(blocks.reason_of("kept\n"), Some("example-output"));
}

#[test]
fn paths_that_are_taken_get_a_number() {
    let taken = vec!["r/a.txt".to_owned(), "r/a-2.txt".to_owned(), "r/a-4.txt".to_owned()];
    assert_eq!(unused_path("r", "a", &taken), "r/a-3.txt");
    assert_eq!(unused_path("q", "a", &taken), "q/a.txt");
    assert!(is_ignore_reason("manual-command"));
    assert!(!is_ignore_reason("manual"));
}
