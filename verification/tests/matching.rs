use asadoc::matching::{match_content, Matcher, Values};

#[test]
fn placeholders_match_consistently() -> Result<(), String> {
    let placeholders = vec!["<A>".to_owned()];
    let values = match_content("x: <A>\ny: <A>\n", &placeholders, "x: 1\ny: 1\n")?.ok_or("no match")?;
    assert_eq!(values.get("<A>"), Some("1"));
    assert!(match_content("x: <A>\ny: <A>\n", &placeholders, "x: 1\ny: 2\n")?.is_none());
    assert!(match_content("x: <A>\n", &placeholders, "x: 1\n2\n")?.is_none());
    assert_eq!(match_content("same\n", &vec![], "same\n")?, Some(Values::new()));
    Ok(())
}

#[test]
fn fills_placeholders_for_display() -> Result<(), String> {
    let placeholders = vec!["${V}".to_owned()];
    assert_eq!(
        Matcher::new("a ${V}\nb", &placeholders)?.fill("c\na 4.22\n")?,
        "a 4.22\nb"
    );
    // In order: the second `end:` takes the second value
    let placeholders = vec!["<A>".to_owned(), "<B>".to_owned()];
    assert_eq!(
        Matcher::new("end: <A>\nx\nend: <B>\n", &placeholders)?.fill("end: 1\nx\nend: 45\n")?,
        "end: 1\nx\nend: 45\n"
    );
    Ok(())
}

#[test]
fn a_search_that_gives_up_says_why() {
    let placeholders = vec!["<A>".to_owned(), "<B>".to_owned()];
    let error = match_content("<A><B><A><B>z", &placeholders, &"a".repeat(4000)).err();
    assert!(error.is_some_and(|error| {
        error.ends_with("matching the code's pattern: Error executing regex: Max limit for backtracking count exceeded")
    }));
}
