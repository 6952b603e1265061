use asadoc::apply::apply_options;
use asadoc::docs::Block;
use asadoc::edits::{apply, edit_region, extend_marker, mark_file, mark_section, split_around_range, Rewrite};
use asadoc::lightbulb::{
    describe, normalize, plan_for, portion_plan, strip_prompt_option, unused_section_name, Candidate, LightbulbFix,
    LightbulbPlan,
};
use asadoc::markers::parse_markers;
use asadoc::options::OptionSide;
use asadoc::repo::{end_line, marked_file, marked_section, options_on_side, scan};

#[test]
fn marked_lines_read_back_and_match() -> Result<(), String> {
    let text = "top\n  a: 1\n  # why\n  b: 2\n  c: 3\nend\n";
    let doc = "  a: 1\n  b: 2\n  c: 3\n";
    let fixes = portion_plan("mod", doc, text, &parse_markers(text)).ok_or("no plan")?;
    let plan = LightbulbPlan { fixes, doc_options: vec![] };
    let marked = apply(text, &None, &plan)?;
    assert_eq!(
        marked,
        "top\n  # @docs-as-code: start section \"mod\"\n  #   | remove-lines-starting-with: \"#\"\n  a: 1\n  # why\n  b: 2\n  c: 3\n  # @docs-as-code: end section \"mod\"\nend\n"
    );
    let markers = parse_markers(&marked);
    let section = markers.section("mod").ok_or("no section")?;
    let raw = marked_section(&marked, section)?;
    assert_eq!(raw.raw, "  a: 1\n  # why\n  b: 2\n  c: 3\n");
    assert_eq!(apply_options(&raw.raw, &options_on_side(&raw.options, OptionSide::Repo)).map_err(|misfit| misfit.chain())?, doc);
    assert_eq!(
        describe(&plan, "f.yaml", &None),
        [
            "add start and end markers around lines 2-5 of f.yaml, making them section \"mod\"",
            "add `| remove-lines-starting-with: \"#\"` to its start marker"
        ]
    );
    Ok(())
}

#[test]
fn marked_file_reads_back_and_matches() -> Result<(), String> {
    let options = vec![strip_prompt_option()];
    let marked = mark_file("#!/bin/sh\nls\npwd", &options);
    assert_eq!(
        marked,
        "#!/bin/sh\n# @docs-as-code: file\n#   | doc strip-line-prefix: \"$ \"\nls\npwd"
    );
    let header = parse_markers(&marked).file.ok_or("no file marker")?;
    assert_eq!(header.options, options);
    let raw = marked_file(&marked, &header)?;
    assert_eq!(raw.raw, end_line("#!/bin/sh\nls\npwd".to_owned()));
    Ok(())
}

#[test]
fn marked_code_is_rewritten_in_place() -> Result<(), String> {
    let text = "x\n# @docs-as-code: start section \"s\"\n---\na\n# @docs-as-code: end section \"s\"\ny\n";
    let section = Some("s".to_owned());
    assert_eq!(
        edit_region(text, &section, &Rewrite::RemoveDashes)?,
        "x\n# @docs-as-code: start section \"s\"\na\n# @docs-as-code: end section \"s\"\ny\n"
    );
    assert_eq!(
        edit_region(text, &section, &Rewrite::Newlines(2))?,
        "x\n# @docs-as-code: start section \"s\"\n---\na\n\n# @docs-as-code: end section \"s\"\ny\n"
    );
    assert_eq!(
        edit_region("# @docs-as-code: file\na\n", &None, &Rewrite::AddDashes)?,
        "# @docs-as-code: file\n---\na\n"
    );
    assert_eq!(
        edit_region(text, &Some("t".to_owned()), &Rewrite::AddDashes),
        Err("section \"t\" not found".to_owned())
    );
    assert_eq!(
        edit_region(text, &None, &Rewrite::AddDashes),
        Err("file marker not found".to_owned())
    );
    Ok(())
}

#[test]
fn markers_are_extended() -> Result<(), String> {
    let text = "  # @docs-as-code: start section \"s\"\n  a\n  # @docs-as-code: end section \"s\"\n";
    let extended = extend_marker(text, &Some("s".to_owned()), &vec![strip_prompt_option()])?;
    assert_eq!(
        extended,
        "  # @docs-as-code: start section \"s\"\n  #   | doc strip-line-prefix: \"$ \"\n  a\n  # @docs-as-code: end section \"s\"\n"
    );
    assert_eq!(
        extend_marker("a\n", &None, &vec![strip_prompt_option()]),
        Err("marker not found".to_owned())
    );
    assert!(mark_section("a\nb\n", "s", 3, 2, &vec![])
        .is_err_and(|error| error == "the 2 lines from line 3 aren't all in the file"));
    Ok(())
}

#[test]
fn ranges_split_a_text() -> Result<(), String> {
    assert_eq!(
        split_around_range("abcd", 1, 3)?,
        ("a".to_owned(), "bc".to_owned(), "d".to_owned())
    );
    assert_eq!(
        split_around_range("abcd", 3, 1),
        Err("range ends before it starts".to_owned())
    );
    assert_eq!(
        split_around_range("é", 1, 2),
        Err("splitting at the start of the range: byte 1 is outside the text or inside a character".to_owned())
    );
    Ok(())
}

#[test]
fn code_is_normalized_to_the_doc() {
    let (normalized, fixes) = normalize("---\na\n\n", "a\n");
    assert_eq!(normalized, "---\na\n\n");
    assert!(matches!(
        fixes.as_slice(),
        [
            LightbulbFix::AddDashes,
            LightbulbFix::TrailingNewline { wanted_newlines: 2, had_newlines: 1 }
        ]
    ));
    let (same, none) = normalize("a\n", "a\n");
    assert_eq!(same, "a\n");
    assert!(none.is_empty());
}

#[test]
fn plans_strip_prompts_when_they_are_in_the_way() -> Result<(), String> {
    let files = vec![("run.sh".to_owned(), "oc get nodes --output wide\noc get pods --all-namespaces\n".to_owned())];
    let found = scan(files)?;
    let file = &found.files[0];
    let block = Block {
        module: "mod".to_owned(),
        lang: "terminal".to_owned(),
        seq: 1,
        reference: "mod/terminal-001".to_owned(),
        content: "$ oc get nodes --output wide\n$ oc get pods --all-namespaces\n".to_owned(),
        line: 1,
        section: None,
        lead: None,
    };
    let candidate = Candidate {
        file: &file.file,
        section: None,
        marked_code: None,
        file_text: &file.text,
        markers: &file.markers,
    };
    let plan = plan_for(&block, &candidate)?.ok_or("no plan")?;
    assert!(matches!(plan.fixes.as_slice(), [LightbulbFix::MarkFile]));
    assert_eq!(plan.doc_options, [strip_prompt_option()]);
    let fixed = apply(&file.text, &None, &plan)?;
    assert_eq!(
        fixed,
        "# @docs-as-code: file\n#   | doc strip-line-prefix: \"$ \"\noc get nodes --output wide\noc get pods --all-namespaces\n"
    );
    Ok(())
}

#[test]
fn section_names_are_unused() {
    let text = "# @docs-as-code: start section \"m\"\na\n# @docs-as-code: end section \"m\"\n# @docs-as-code: start section \"m-2\"\na\n# @docs-as-code: end section \"m-2\"\n";
    assert_eq!(unused_section_name(&parse_markers(text), "m"), "m-3");
    assert_eq!(unused_section_name(&parse_markers(text), "n"), "n");
}

#[test]
fn rewritten_code_reads_back() -> Result<(), String> {
    let text = "x\n# @docs-as-code: start section \"s\"\n#   | param: \"<A>\"\n---\na: <A>\n# @docs-as-code: start section \"inner\"\nb\n# @docs-as-code: end section \"inner\"\n# @docs-as-code: end section \"s\"\ny\n";
    let name = Some("s".to_owned());
    let before = parse_markers(text);
    let edited = edit_region(text, &name, &Rewrite::RemoveDashes)?;
    let after = parse_markers(&edited);
    let section = after.section("s").ok_or("no section")?;
    assert_eq!(section.header.options, before.section("s").ok_or("no section")?.header.options);
    assert_eq!(
        marked_section(&edited, section)?.raw,
        "a: <A>\n# @docs-as-code: start section \"inner\"\nb\n# @docs-as-code: end section \"inner\"\n"
    );
    let file = "#!/bin/sh\n# @docs-as-code: file\n#   | param: \"ls\"\nls\n";
    let edited = edit_region(file, &None, &Rewrite::AddDashes)?;
    let header = parse_markers(&edited).file.ok_or("no file marker")?;
    assert_eq!(header.options.len(), 1);
    assert_eq!(marked_file(&edited, &header)?.raw, "---\n#!/bin/sh\nls\n");
    let extended = extend_marker(file, &None, &vec![strip_prompt_option()])?;
    let header = parse_markers(&extended).file.ok_or("no file marker")?;
    let written: Vec<String> = header.options.iter().map(|option| option.marker_text()).collect();
    assert_eq!(written, ["param: \"ls\"", "doc strip-line-prefix: \"$ \""]);
    assert_eq!(marked_file(&extended, &header)?.raw, "#!/bin/sh\nls\n");
    Ok(())
}

#[test]
fn fixed_code_matches() -> Result<(), String> {
    let text = "# @docs-as-code: start section \"s\"\n#   | param: \"<A>\"\noc apply <A>\n\n# @docs-as-code: end section \"s\"\n";
    let found = scan(vec![("run.sh".to_owned(), text.to_owned())])?;
    let code = &found.marked[0];
    let block = Block {
        module: "mod".to_owned(),
        lang: "terminal".to_owned(),
        seq: 1,
        reference: "mod/terminal-001".to_owned(),
        content: "$ oc apply first\n".to_owned(),
        line: 1,
        section: None,
        lead: None,
    };
    let candidate = Candidate {
        file: &code.file,
        section: Some("s"),
        marked_code: Some(code),
        file_text: text,
        markers: &found.files[0].markers,
    };
    let plan = plan_for(&block, &candidate)?.ok_or("no plan")?;
    assert_eq!(
        describe(&plan, "run.sh", &Some("s".to_owned())),
        [
            "remove the 1 extra blank line at the end of section \"s\"",
            "add `| doc strip-line-prefix: \"$ \"` to the marker"
        ]
    );
    let fixed = apply(text, &Some("s".to_owned()), &plan)?;
    assert_eq!(
        fixed,
        "# @docs-as-code: start section \"s\"\n#   | param: \"<A>\"\n#   | doc strip-line-prefix: \"$ \"\noc apply <A>\n# @docs-as-code: end section \"s\"\n"
    );
    let again = scan(vec![("run.sh".to_owned(), fixed)])?;
    let code = &again.marked[0];
    let doc = apply_options(&block.content, &code.doc_options).map_err(|misfit| misfit.chain())?;
    let values = code.matcher.matches(&doc)?.ok_or("no match")?;
    assert_eq!(values.get("<A>"), Some("first"));
    Ok(())
}

#[test]
fn a_bare_shebang_line_stays_a_line_of_its_own() -> Result<(), String> {
    let marked = mark_file("#!/bin/sh", &vec![]);
    assert_eq!(marked, "#!/bin/sh\n# @docs-as-code: file\n");
    let markers = parse_markers(&marked);
    assert!(markers.problems.is_empty() && markers.sections.is_empty());
    let header = markers.file.ok_or("no file marker")?;
    assert_eq!(marked_file(&marked, &header)?.raw, "#!/bin/sh\n");
    assert_eq!(
        mark_file("#!/bin/sh", &vec![strip_prompt_option()]),
        "#!/bin/sh\n# @docs-as-code: file\n#   | doc strip-line-prefix: \"$ \"\n"
    );
    Ok(())
}

#[test]
fn added_dashes_come_off() -> Result<(), String> {
    let text = "x\n# @docs-as-code: start section \"s\"\n#   | param: \"<A>\"\n<A>\n# @docs-as-code: end section \"s\"\ny";
    let name = Some("s".to_owned());
    let added = edit_region(text, &name, &Rewrite::AddDashes)?;
    assert_eq!(
        added,
        "x\n# @docs-as-code: start section \"s\"\n#   | param: \"<A>\"\n---\n<A>\n# @docs-as-code: end section \"s\"\ny"
    );
    assert_eq!(edit_region(&added, &name, &Rewrite::RemoveDashes)?, text);
    Ok(())
}

#[test]
fn a_file_marker_is_extended_among_other_markers() -> Result<(), String> {
    let text = "# @docs-as-code: start section \"s\"\na\n# @docs-as-code: file | param: \"a\"\nb\n# @docs-as-code: end section \"s\"";
    let extended = extend_marker(text, &None, &vec![strip_prompt_option()])?;
    assert_eq!(
        extended,
        "# @docs-as-code: start section \"s\"\na\n# @docs-as-code: file | param: \"a\"\n#   | doc strip-line-prefix: \"$ \"\nb\n# @docs-as-code: end section \"s\""
    );
    let header = parse_markers(&extended).file.ok_or("no file marker")?;
    let written: Vec<String> = header.options.iter().map(|option| option.marker_text()).collect();
    assert_eq!(written, ["param: \"a\"", "doc strip-line-prefix: \"$ \""]);
    Ok(())
}
