use asadoc::apply::{
    apply_options, has_shaping_options, indentation_width, param_names, placeholders, reindent, remove_prefix,
    remove_suffix, strip_line_prefix, unindent_common, wildcard_regex, Misfit,
};
use asadoc::options::{parse_options, quote, MarkerOption, OptionSide, OptionValue};

#[test]
fn options_apply_in_the_order_written() -> Result<(), String> {
    let first = parse_options(r#"| strip-line-prefix: "$ " | remove-prefix: "if ""#)?;
    assert_eq!(apply_options("$ if a\n$ b\n", &first).map_err(|misfit| misfit.chain())?, "a\nb\n");
    let second = parse_options(r#"| remove-prefix: "if " | strip-line-prefix: "$ ""#)?;
    assert_eq!(
        apply_options("$ if a\n$ b\n", &second),
        Err(Misfit { message: "the first line doesn't start with \"if \"".to_owned(), reason: None })
    );
    Ok(())
}

#[test]
fn nothing_changes_without_options() -> Result<(), String> {
    assert_eq!(apply_options("  a \n\n", &vec![]).map_err(|misfit| misfit.chain())?, "  a \n\n");
    let params = parse_options(r#"| param: "<A>""#)?;
    assert_eq!(apply_options("  <A> \n\n", &params).map_err(|misfit| misfit.chain())?, "  <A> \n\n");
    assert!(!has_shaping_options(&params));
    assert!(has_shaping_options(&parse_options("| remove-blank-lines")?));
    Ok(())
}

#[test]
fn indentation_is_removed_and_changed() -> Result<(), String> {
    let list = vec!["        a".to_owned(), "      b".to_owned(), String::new()];
    assert_eq!(unindent_common(&list)?, ["  a", "b", ""]);
    // 8 spaces become 4, and spaces beyond a multiple of 4 are kept, so 6 become 4
    assert_eq!(reindent(&list, 4, 2)?, ["    a", "    b", ""]);
    assert_eq!(indentation_width("\u{a0}\tx"), 3);
    Ok(())
}

#[test]
fn prefixes_and_suffixes_must_be_there() -> Result<(), String> {
    let list = vec!["  if a".to_owned(), "b; then".to_owned()];
    assert_eq!(remove_prefix(list.clone(), "if ")?, ["  a", "b; then"]);
    assert_eq!(remove_suffix(list.clone(), "; then")?, ["  if a", "b"]);
    assert!(remove_prefix(list.clone(), "unless ").is_err());
    assert!(remove_suffix(list.clone(), "; do").is_err());
    assert_eq!(strip_line_prefix(list, "b"), ["  if a", "; then"]);
    Ok(())
}

#[test]
fn wildcards_find_every_name() -> Result<(), String> {
    assert_eq!(param_names("<*>", "<A> <b_1> < > <A>")?, ["<A>", "<b_1>", "<A>"]);
    assert_eq!(param_names("<A>", "nothing")?, ["<A>"]);
    let options = parse_options(r#"| param: "a.b" | param: "a*b""#)?;
    // A `.` in a wildcard stands for itself
    assert_eq!(placeholders(&options, "a.b axb")?, ["a.b", "axb"]);
    Ok(())
}

#[test]
fn options_read_back_as_written() -> Result<(), String> {
    assert_eq!(quote("say \"\\\""), "\"say \\\"\\\\\\\"\"");
    let option = MarkerOption {
        key: "reindent".to_owned(),
        value: Some(OptionValue::Reindent { from: 4, to: 2 }),
        side: OptionSide::Doc,
    };
    assert_eq!(option.marker_text(), "doc reindent: 4 -> 2");
    let text = MarkerOption::text("remove-prefix", "a \"quoted\" \\ text", OptionSide::Repo);
    let written = format!("| {} | {}", option.marker_text(), text.marker_text());
    assert_eq!(parse_options(&written)?, [option, text]);
    Ok(())
}

#[test]
fn options_that_cannot_be_read_are_errors() {
    for written in [
        "remove-blank-lines",
        "| frob",
        "| param",
        "| param: x",
        "| param: \"x",
        "| reindent: 4",
        "| reindent: 0 -> 2",
        "| remove-blank-lines: \"x\"",
        "| doc param: \"x\"",
    ] {
        assert!(parse_options(written).is_err(), "{written}");
    }
}

#[test]
fn a_wildcard_too_large_to_compile_says_why() {
    let value = "*".repeat(100_000);
    assert!(wildcard_regex(&value).is_err_and(|misfit| {
        misfit.chain()
            == format!(
                "compiling the pattern for \"{value}\": Compiled regex exceeds size limit of 10485760 bytes."
            )
    }));
    assert_eq!(wildcard_regex("a.*"), Ok(Some("a\\.[A-Za-z0-9_]+".to_owned())));
    assert_eq!(wildcard_regex("a."), Ok(None));
}

#[test]
fn every_name_is_a_placeholder() -> Result<(), String> {
    let options = parse_options(r#"| param: "<*>""#)?;
    assert_eq!(
        placeholders(&options, "<A> <<B_2>> <a b> <C><A> <> <D")?,
        ["<A>", "<B_2>", "<C>"]
    );
    // Names are as long as they can be, and matches don't overlap
    assert_eq!(param_names("a*a", "xaaaa a1a2a aa")?, ["aaaa", "a1a2a"]);
    assert_eq!(param_names("*-*", "a-b-c d-e")?, ["a-b", "d-e"]);
    assert_eq!(param_names("*_x*", "q_x_x1")?, ["q_x_x1"]);
    assert!(param_names("<*>", "none")?.is_empty());
    Ok(())
}

#[test]
fn options_read_back_with_any_whitespace() -> Result<(), String> {
    let options = vec![
        MarkerOption { key: "unindent-common".to_owned(), value: None, side: OptionSide::Doc },
        MarkerOption {
            key: "reindent".to_owned(),
            value: Some(OptionValue::Reindent { from: 4, to: 2 }),
            side: OptionSide::Repo,
        },
        MarkerOption {
            key: "param".to_owned(),
            value: Some(OptionValue::Text("a \"b\" \\ ".to_owned())),
            side: OptionSide::Repo,
        },
        MarkerOption { key: "remove-blank-lines".to_owned(), value: None, side: OptionSide::Repo },
    ];
    let ended: String = options.iter().map(|option| format!("| {} ", option.marker_text())).collect();
    assert_eq!(parse_options(&ended)?, options);
    let packed: String = options.iter().map(|option| format!("| {}", option.marker_text())).collect();
    assert_eq!(parse_options(&packed)?, options);
    let spread: String = options.iter().map(|option| format!("\t | {}\u{a0}\n", option.marker_text())).collect();
    assert_eq!(parse_options(&spread)?, options);
    Ok(())
}
