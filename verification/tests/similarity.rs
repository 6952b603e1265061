use asadoc::similarity::{
    blended_similarity, line_overlap, next_lcs_row, significant_lines, similarity, take_token, token_overlap, tokens,
    Overlap,
};

#[test]
fn tokens_are_runs_in_lower_case() {
    assert_eq!(tokens("Kind: ConfigMap ${X}-1.2 Ärger"), ["kind", "configmap", "$", "x", "-1.2", "rger"]);
    assert!(tokens("").is_empty());
}

#[test]
fn common_tokens_count_as_often_as_both_have_them() {
    let first: Vec<String> = ["a", "b", "a", "c"].map(str::to_owned).to_vec();
    let second: Vec<String> = ["a", "a", "a", "c", "d"].map(str::to_owned).to_vec();
    assert_eq!(token_overlap(&first, &second), Overlap { common: 3, first: 4, second: 5 });
    assert_eq!(token_overlap(&second, &first), Overlap { common: 3, first: 5, second: 4 });
    let mut counts = vec![("a".to_owned(), 1)];
    assert!(take_token(&mut counts, "a"));
    assert!(!take_token(&mut counts, "a"));
    assert!(!take_token(&mut counts, "b"));
}

#[test]
fn common_lines_are_a_longest_common_subsequence() {
    assert_eq!(significant_lines("  a \n\n b\n"), ["a", "b"]);
    let lines: Vec<String> = ["x", "a", "b"].map(str::to_owned).to_vec();
    assert_eq!(next_lcs_row(&vec![0, 0, 0, 0], "a", &lines), [0, 0, 1, 1]);
    assert_eq!(next_lcs_row(&vec![0, 0, 1, 1], "b", &lines), [0, 0, 1, 2]);
    assert_eq!(
        line_overlap("a\nb\nc\nd\n", "b\nx\nd\na\n"),
        Overlap { common: 2, first: 4, second: 4 }
    );
}

#[test]
fn lines_only_count_when_tokens_are_alike() {
    let alike = similarity("a b c\nd\n", "a b c\ne\n");
    assert_eq!(alike.tokens, Overlap { common: 3, first: 4, second: 4 });
    assert_eq!(alike.lines, Some(Overlap { common: 1, first: 2, second: 2 }));
    assert!(!alike.tokens.is_low());
    let unlike = similarity("a b c d e f g\n", "a x y z u v w\n");
    assert_eq!(unlike.lines, None);
    assert!(unlike.tokens.is_low());
    // Three tenths exactly is alike
    assert!(!Overlap { common: 3, first: 10, second: 10 }.is_low());
    assert!(Overlap { common: 0, first: 0, second: 1 }.is_low());
    let none: Vec<String> = vec![];
    assert_eq!(blended_similarity(&none, &none, "", "").lines, None);
}
