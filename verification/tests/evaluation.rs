use asadoc::candidates::{
    add_candidates, candidates_for, closest_block, draft_all, draft_closest, formerly, unprompted_content,
    FULL_SIMILARITY, MIN_SIMILARITY,
};
use asadoc::check::{all_ok, line_diff, plural, print_fix, print_outcome, print_summary};
use asadoc::docs::{Assembly, Block};
use asadoc::eval::{evaluate, module_paths, read_assemblies, AssemblySource};
use asadoc::ignored::{IgnoredBlocks, IgnoredEntry};
use asadoc::repo::scan;
use asadoc::report::{
    finish_outcome, fix, fix_applied, outcomes, unused_drafts, FixChoice, FixOutcome, LineDiff, Outcome, Summary,
};
use asadoc::server::{
    apply_fix, build_report, find_assembly, ignore_block, is_generated, is_plain_module_name, is_plain_relative,
    unignore_block, ApiStatus, BlockAction,
};
use asadoc::config::Links;

#[test]
fn blocks_are_resolved_ignored_or_open() -> Result<(), String> {
    let files = vec![
        (
            "deploy/a.yaml".to_owned(),
            "# @docs-as-code: file\n#   | param: \"<NAME>\"\nname: <NAME>\nkind: BFB\n".to_owned(),
        ),
        (
            "run.sh".to_owned(),
            "# @docs-as-code: start section \"unused\"\necho unused\n# @docs-as-code: end section \"unused\"\n".to_owned(),
        ),
    ];
    let ignored = IgnoredBlocks::load(&vec![
        IgnoredEntry {
            reason: "example-output".to_owned(),
            path: "example-output/m.txt".to_owned(),
            content: "NAME READY\n".to_owned(),
        },
        IgnoredEntry {
            reason: "manual-command".to_owned(),
            path: "manual-command/old.txt".to_owned(),
            content: "$ oc old command\n".to_owned(),
        },
    ]);
    let module = "[source,yaml]\n----\nname: first\nkind: BFB\n----\n\n[source,terminal]\n----\nNAME READY\n----\n\n[source,terminal]\n----\n$ oc older command\n----\n";
    let sources = vec![AssemblySource {
        assembly: Assembly {
            id: "guide".to_owned(),
            path: "guide.adoc".to_owned(),
            title: "The guide".to_owned(),
            modules: vec!["m".to_owned()],
        },
        module_texts: vec![module.to_owned()],
    }];
    let evaluation = evaluate(scan(files)?, &ignored, sources)?;
    let blocks = &evaluation.assemblies[0].blocks;
    assert_eq!(blocks.len(), 3);
    assert!(blocks[0].resolved());
    assert_eq!(blocks[0].matches[0].code, 0);
    assert_eq!(blocks[0].matches[0].values.get("<NAME>"), Some("first"));
    assert_eq!(blocks[1].ignored_as, Some("example-output".to_owned()));
    assert!(blocks[1].done() && !blocks[1].resolved());
    assert!(!blocks[2].done());
    assert_eq!(evaluation.unused, [1]);
    assert_eq!(
        evaluation.stale_ignored,
        [("manual-command".to_owned(), "$ oc old command\n".to_owned())]
    );
    assert!(evaluation.find("guide", "m/yaml-001").is_some());
    assert!(evaluation.find("other", "m/yaml-001").is_none());
    assert!(evaluation.find_any("m/terminal-002").is_some());
    assert_eq!(evaluation.marked(7).err(), Some("no marked code at index 7".to_owned()));

    // The stale content is what the open block used to be
    let mut drafts = draft_all(&evaluation)?;
    assert_eq!(drafts.len(), 3);
    assert!(drafts[0].candidates.is_empty());
    assert_eq!(drafts[2].formerly.len(), 1);
    assert_eq!(drafts[2].formerly[0].comparison.tokens.common, 3);
    drafts[2].formerly[0].former.similarity = 0.9f64.to_bits();
    let evaluation = add_candidates(evaluation, drafts);
    let open = &evaluation.assemblies[0].blocks[2];
    assert_eq!(open.formerly[0].reason, "manual-command");
    assert!(open.candidates.is_empty());

    // The whole picture
    let unused = unused_drafts(&evaluation)?;
    assert_eq!(unused.len(), 1);
    let summary = Summary::build("docs", &evaluation, unused);
    assert_eq!(
        (summary.total, summary.resolved, summary.ignored, summary.open()),
        (3, 1, 1, 1)
    );
    assert_eq!(summary.fixable(), 0);
    assert!(!summary.ok());
    let words = print_summary(&summary, false);
    assert!(words.starts_with(
        "Docs: docs\n3 doc code blocks: 1 match marked code in this repo, 1 are ignored, 1 is still to resolve.\n\nThe guide  (guide.adoc)\n─────────\n  ✗ m/terminal-002\n      doc:     modules/m.adoc:14\n      closest: nothing in the repo resembles it\n"
    ));
    assert!(words.contains("  ! run.sh, section \"unused\"\n      closest doc block: none resembles it\n"));
    assert!(words.contains("  - manual-command: $ oc old command\n"));
    assert!(print_summary(&summary, true).contains("\u{1b}[1;4mThe guide\u{1b}[0m  (guide.adoc)\n"));

    // Single blocks and pieces of code
    let names = vec![
        "m/yaml-001".to_owned(),
        "m/terminal-001".to_owned(),
        "m/terminal-002".to_owned(),
        "deploy/a.yaml".to_owned(),
        "run.sh#unused".to_owned(),
        "nothing".to_owned(),
    ];
    let found: Vec<Outcome> = outcomes(&evaluation, &names, &None)?.into_iter().map(finish_outcome).collect();
    let words: Vec<String> = found.iter().map(print_outcome).collect();
    assert_eq!(
        words,
        [
            "✓ m/yaml-001: resolved (matches deploy/a.yaml)\n    <NAME> = \"first\"\n",
            "✓ m/terminal-001: ignored (example-output)\n",
            "✗ m/terminal-002 (modules/m.adoc:14): no marked code matches it, and nothing in the repo resembles it. The block:\n----\n$ oc older command\n----\n",
            "✓ deploy/a.yaml: matches m/yaml-001\n",
            "✗ run.sh, section \"unused\": no doc block resembles it; if the docs no longer show it, remove its markers\n",
            "✗ nothing: no doc block or marked code by that name\n",
        ]
    );
    assert!(!all_ok(&found));
    assert!(all_ok(&vec![]));
    let against: Vec<Outcome> =
        outcomes(&evaluation, &vec!["m/terminal-001".to_owned()], &Some("run.sh".to_owned()))?
            .into_iter()
            .map(finish_outcome)
            .collect();
    assert_eq!(
        print_outcome(&against[0]),
        "✗ m/terminal-001 (modules/m.adoc:9): run.sh, section \"unused\" doesn't match it\n--- doc: m/terminal-001, 1 line\n+++ run.sh, section \"unused\", 1 line\n@@ -1 +1 @@\n-NAME READY\n+echo unused\n"
    );
    assert_eq!(
        outcomes(&evaluation, &names, &Some("x".to_owned())).err(),
        Some("no marked code named x".to_owned())
    );

    // What the review UI is sent
    let links = Links { repo: None, docs: None };
    let report = build_report("docs", &links, &evaluation)?;
    assert_eq!(report.total_blocks, 3);
    let guide = &report.guides[0];
    assert_eq!((guide.blocks.len(), guide.resolved.len(), guide.ignored.len()), (1, 1, 1));
    assert_eq!(guide.resolved[0].matched_code.as_ref().map(Vec::len), Some(1));
    assert_eq!(report.marked_code[0].matched_by[0].reference, "m/yaml-001");
    assert!(report.marked_code[1].matched_by.is_empty());

    // What it may ask for
    let mut action = BlockAction {
        assembly_id: "guide".to_owned(),
        reference: "m/terminal-002".to_owned(),
        candidate_id: Some("run.sh".to_owned()),
        reason: Some("manual-command".to_owned()),
        replacing_content: None,
    };
    let refused = apply_fix(&evaluation, &action).err().ok_or("a fix")?;
    assert_eq!(refused.status, ApiStatus::Conflict);
    assert_eq!(refused.message, "run.sh has no fix for m/terminal-002 anymore");
    assert_eq!(
        ignore_block(&evaluation, &action).map(|(block, reason)| (block.block.content.clone(), reason)).ok(),
        Some(("$ oc older command\n".to_owned(), "manual-command".to_owned()))
    );
    let refused = unignore_block(&evaluation, &action).err().ok_or("ignored")?;
    assert_eq!(refused.message, "m/terminal-002 isn't ignored");
    action.reason = Some("why\n".to_owned());
    let refused = ignore_block(&evaluation, &action).err().ok_or("a reason")?;
    assert_eq!(refused.status, ApiStatus::BadRequest);
    assert_eq!(refused.message, "invalid reason \"why\\n\"");
    action.reference = "m/terminal-001".to_owned();
    assert!(unignore_block(&evaluation, &action).is_ok());
    action.reference = "gone".to_owned();
    let refused = apply_fix(&evaluation, &action).err().ok_or("a block")?;
    assert_eq!(refused.status, ApiStatus::NotFound);
    assert_eq!(refused.message, "doc block gone not found");
    Ok(())
}

#[test]
fn an_open_block_gets_a_fix() -> Result<(), String> {
    let yaml = "apiVersion: v1\nkind: ConfigMap\nmetadata:\n  name: example\n";
    let files = vec![
        ("a.yaml".to_owned(), yaml.to_owned()),
        (
            "b.yaml".to_owned(),
            "# @docs-as-code: file\napiVersion: v1\nkind: ConfigMap\nmetadata:\n  name: other\n".to_owned(),
        ),
    ];
    let ignored = IgnoredBlocks::load(&vec![]);
    let module = format!("[source,yaml]\n----\n{yaml}----\n");
    let sources = vec![AssemblySource {
        assembly: Assembly {
            id: "g".to_owned(),
            path: "g.adoc".to_owned(),
            title: "G".to_owned(),
            modules: vec!["m".to_owned()],
        },
        module_texts: vec![module],
    }];
    let evaluation = evaluate(scan(files)?, &ignored, sources)?;
    let mut drafts = draft_all(&evaluation)?;
    assert_eq!(drafts[0].candidates.len(), 2);
    // The marked file first, then the unmarked one
    assert_eq!(drafts[0].candidates[0].info.kind, "file");
    let comparison = drafts[0].candidates[0].comparison.ok_or("no comparison")?;
    assert_eq!((comparison.tokens.common, comparison.tokens.first, comparison.tokens.second), (6, 7, 7));
    assert_eq!(comparison.lines.map(|lines| lines.common), Some(3));
    drafts[0].candidates[0].info.similarity = 0.8f64.to_bits();
    assert_eq!(drafts[0].candidates[1].info.similarity, FULL_SIMILARITY);
    let evaluation = add_candidates(evaluation, drafts);
    let block = &evaluation.assemblies[0].blocks[0];
    let ids: Vec<&str> = block.candidates.iter().map(|candidate| candidate.id.as_str()).collect();
    assert_eq!(ids, ["a.yaml", "b.yaml"]);

    let FixChoice::Change { file, plan, steps, .. } = fix(&evaluation, "m/yaml-001")? else {
        return Err("no fix".to_owned());
    };
    assert_eq!(file, "a.yaml");
    assert_eq!(
        steps,
        ["add a `# @docs-as-code: file` line at the top of a.yaml, marking the whole file"]
    );
    assert_eq!(
        fix(&evaluation, "m/yaml-002").err(),
        Some("no doc block m/yaml-002 in the configured assemblies".to_owned())
    );
    let fixed = asadoc::edits::apply(yaml, &None, &plan)?;
    let sources = vec![AssemblySource {
        assembly: Assembly {
            id: "g".to_owned(),
            path: "g.adoc".to_owned(),
            title: "G".to_owned(),
            modules: vec!["m".to_owned()],
        },
        module_texts: vec![format!("[source,yaml]\n----\n{yaml}----\n")],
    }];
    let after = evaluate(scan(vec![("a.yaml".to_owned(), fixed)])?, &ignored, sources)?;
    let outcome = fix_applied(file, steps, &after, "m/yaml-001");
    assert!(outcome.ok());
    assert_eq!(
        print_fix(&outcome, "m/yaml-001"),
        "  add a `# @docs-as-code: file` line at the top of a.yaml, marking the whole file\n✓ m/yaml-001: resolved\n"
    );
    assert!(matches!(fix(&after, "m/yaml-001")?, FixChoice::AlreadyDone));
    assert!(!FixOutcome::NoFix.ok());

    // The block closest to the code that none matches
    let code = evaluation.marked(0)?;
    let mut drafts = draft_closest(&evaluation, code)?;
    assert_eq!(drafts.len(), 1);
    drafts[0].similarity = MIN_SIMILARITY;
    let closest = closest_block(drafts).ok_or("none")?;
    assert_eq!(closest.block.block.reference, "m/yaml-001");
    let mut drafts = draft_closest(&evaluation, code)?;
    drafts[0].similarity = MIN_SIMILARITY - 1;
    assert!(closest_block(drafts).is_none());
    assert!(formerly(vec![]).is_none());
    assert!(candidates_for(vec![]).is_empty());
    Ok(())
}

#[test]
fn assemblies_are_read_in_order() {
    let files = vec![
        ("a.adoc".to_owned(), "= A\ninclude::modules/x.adoc[]\n".to_owned()),
        ("b.adoc".to_owned(), "= B\ninclude::modules/y.adoc[]\ninclude::modules/x.adoc[]\n".to_owned()),
    ];
    let assemblies = read_assemblies(&files);
    assert_eq!(
        assemblies.map(|assemblies| module_paths(&assemblies)),
        Ok(vec![
            "modules/x.adoc".to_owned(),
            "modules/y.adoc".to_owned(),
            "modules/x.adoc".to_owned()
        ])
    );
    let paths = vec!["a.adoc".to_owned(), "b.adoc".to_owned(), "c.adoc".to_owned()];
    let texts = vec![Ok("= A\n".to_owned()), Ok("= B\n".to_owned()), Err("gone".to_owned())];
    assert_eq!(find_assembly(&paths, &texts, "b"), Ok(Some("b.adoc".to_owned())));
    assert_eq!(
        find_assembly(&paths, &texts, "c"),
        Err("reading the assembly c.adoc: gone".to_owned())
    );
    assert_eq!(find_assembly(&vec![], &vec![], "a"), Ok(None));
}

#[test]
fn requests_stay_inside() {
    for path in ["a/b.yaml", "a/./b", "a//b", ""] {
        assert!(is_plain_relative(path), "{path}");
    }
    for path in ["/etc/passwd", "../x", "a/../b", "./a", "."] {
        assert!(!is_plain_relative(path), "{path}");
    }
    assert!(is_plain_module_name("nw-dpf_1.x"));
    assert!(!is_plain_module_name("../x"));
    assert!(is_generated("/repo/.git/index"));
    assert!(is_generated("target"));
    assert!(!is_generated("/repo/targets/a"));
}

#[test]
fn differences_are_put_into_words() {
    assert_eq!(plural(1, "line", "lines"), "1 line");
    assert_eq!(plural(0, "line", "lines"), "0 lines");
    for (differ, extra, words) in [
        (0, 0, "same lines, but not the same text (line endings or placeholders)"),
        (0, 2, "the code has 2 lines more"),
        (3, 1, "3 of 4 lines differ"),
        (1, 3, "1 of 4 lines differ, and the code has 2 more"),
    ] {
        assert_eq!(line_diff(LineDiff { doc_lines: 4, differ, extra }), words);
    }
    assert_eq!(
        LineDiff::new("a\nb\nc\n", "a\nx\nc\nd\n"),
        LineDiff { doc_lines: 3, differ: 1, extra: 2 }
    );
}

#[test]
fn prompts_are_left_out_of_comparisons() {
    let mut block = Block {
        module: "m".to_owned(),
        lang: "terminal".to_owned(),
        seq: 1,
        reference: "m/terminal-001".to_owned(),
        content: "$ a \\\n  b\n$ c\n".to_owned(),
        line: 1,
        section: None,
        lead: None,
    };
    assert_eq!(unprompted_content(&block), "a \\\n  b\nc\n");
    block.content = "a $ b\n".to_owned();
    assert_eq!(unprompted_content(&block), "a $ b\n");
}

#[test]
fn only_the_content_of_a_block_counts() -> Result<(), String> {
    let files = vec![("a.yaml".to_owned(), "# @docs-as-code: file\nkind: BFB\n".to_owned())];
    let module = "[source,yaml]\n----\nkind: BFB\n----\n";
    let ignored = IgnoredBlocks::load(&vec![]);
    let sources = vec![AssemblySource {
        assembly: Assembly {
            id: "g".to_owned(),
            path: "g.adoc".to_owned(),
            title: "G".to_owned(),
            modules: vec!["m".to_owned(), "n".to_owned()],
        },
        module_texts: vec![module.to_owned(), format!("= Moved\n\nSome text.\n\n{module}")],
    }];
    let evaluation = evaluate(scan(files)?, &ignored, sources)?;
    let blocks = &evaluation.assemblies[0].blocks;
    assert_eq!(blocks.len(), 2);
    assert_ne!(blocks[0].block.reference, blocks[1].block.reference);
    assert!(blocks.iter().all(|block| block.matches.len() == 1 && block.matches[0].code == 0));
    assert!(evaluation.unused.is_empty());
    Ok(())
}

#[test]
fn unmatched_marked_code_needs_attention() -> Result<(), String> {
    let files = vec![
        (
            "a.yaml".to_owned(),
            "# @docs-as-code: file\nkind: BFB\n".to_owned(),
        ),
        (
            "run.sh".to_owned(),
            "# @docs-as-code: start section \"unused\"\necho unused\n# @docs-as-code: end section \"unused\"\n".to_owned(),
        ),
    ];
    let sources = vec![AssemblySource {
        assembly: Assembly {
            id: "guide".to_owned(),
            path: "guide.adoc".to_owned(),
            title: "The guide".to_owned(),
            modules: vec!["m".to_owned()],
        },
        module_texts: vec!["[source,yaml]\n----\nkind: BFB\n----\n".to_owned()],
    }];
    let evaluation = evaluate(scan(files)?, &IgnoredBlocks::load(&vec![]), sources)?;
    let unused = unused_drafts(&evaluation)?;
    assert_eq!(unused.len(), 1);
    let summary = Summary::build("docs", &evaluation, unused);
    assert_eq!(summary.open(), 0);
    assert!(summary.problems.is_empty());
    assert!(!summary.ok());
    let words = print_summary(&summary, false);
    assert!(!words.contains("✓ Every doc code block"));
    assert!(words.ends_with("\n  asadoc check <block>   how a block differs from its closest code\n  asadoc check <file>    how marked code differs from its closest doc block\n  asadoc guide           how markers and ignoring work\n"));
    assert!(Summary::build("docs", &evaluation, vec![]).ok());
    Ok(())
}

#[test]
fn a_refused_wildcard_is_a_problem_without_its_reason() -> Result<(), String> {
    let value = "*".repeat(100_000);
    let text = format!(
        "# @docs-as-code: start section \"s\" | param: \"{value}\"\na\n# @docs-as-code: end section \"s\"\n"
    );
    let found = scan(vec![
        ("a.sh".to_owned(), text),
        ("b.sh".to_owned(), format!("# @docs-as-code: file | remove-lines-starting-with: \"{value}\"\nb\n")),
    ])?;
    assert!(found.marked.is_empty());
    assert_eq!(found.problems.len(), 2);
    assert!(found.problems[0].message == format!("section \"s\": compiling the pattern for \"{value}\""));
    assert!(found.problems[1].message == format!("file marker: compiling the pattern for \"{value}\""));
    Ok(())
}
