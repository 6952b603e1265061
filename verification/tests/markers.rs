use asadoc::apply::{apply_options, placeholders};
use asadoc::markers::parse_markers;
use asadoc::options::{parse_options, MarkerOption, OptionSide};

#[test]
fn parses_multiline_markers_and_options() -> Result<(), String> {
    let text = "x\n    # @docs-as-code: start section \"s\"\n    #   | doc strip-line-prefix: \"$ \"\n    #   | remove-prefix: \"if \" | unindent-common\n    #   | reindent: 4 -> 2 | param: \"<A>\"\n    if a \\\n        b <A>\n    # @docs-as-code: end section \"s\"\n";
    let markers = parse_markers(text);
    assert!(markers.problems.is_empty(), "{:?}", markers.problems);
    let section = markers.section("s").ok_or("no section")?;
    assert_eq!(
        (section.header.first_line, section.header.last_line, section.end_line),
        (2, 5, 8)
    );
    assert_eq!(section.header.options.len(), 5);
    assert_eq!(section.header.options[0].side, OptionSide::Doc);
    let repo_options: Vec<MarkerOption> = section
        .header
        .options
        .iter()
        .filter(|option| option.side == OptionSide::Repo)
        .cloned()
        .collect();
    let raw_section = text
        .get(section.content_from..section.content_to)
        .ok_or("section outside the text")?;
    assert_eq!(apply_options(raw_section, &repo_options).map_err(|misfit| misfit.chain())?, "a \\\n  b <A>\n");
    Ok(())
}

#[test]
fn wildcards_stand_for_names() -> Result<(), String> {
    let options = parse_options(r#"| param: "<*>" | remove-lines-starting-with: "<*>" | remove-blank-lines"#)?;
    let content = apply_options("a: <X>\n\n  <POOL>\nb: <Y> <X>\n", &options).map_err(|misfit| misfit.chain())?;
    assert_eq!(content, "a: <X>\nb: <Y> <X>\n");
    assert_eq!(placeholders(&options, &content)?, ["<X>", "<Y>"]);
    assert!(apply_options("no names\n", &parse_options(r#"| param: "<*>""#)?).is_err());
    Ok(())
}

#[test]
fn reports_problems() {
    let markers = parse_markers(
        "# @docs-as-code: start section \"a\" | frob\n# @docs-as-code: end section \"b\"\n# @docs-as-code: start section \"c\" | param: \"x\" -> \"y\"\n",
    );
    assert_eq!(markers.problems.len(), 3, "{:?}", markers.problems);
}

#[test]
fn whole_files_have_no_sections() {
    let text = "# @docs-as-code: file\n# @docs-as-code: start section \"s\"\na\n# @docs-as-code: end section \"s\"\n# @docs-as-code: frob\n";
    let found = parse_markers(text);
    assert!(found.file.is_some());
    assert_eq!(
        found.problems,
        [
            "line 5: unrecognized marker \"frob\"",
            "line 1: a file marked whole can't also have sections (its marked content would include their markers)"
        ]
    );
}
