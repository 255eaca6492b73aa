use dprint_plugin_json::{
    format_result, is_jsonc_file, strip_bom, ConfigurationBuilder, LineIndex, Range, Token, TokenFinder,
    TokenKind,
};

#[test]
fn test_is_jsonc_file() {
    let config = ConfigurationBuilder::new()
        .json_trailing_comma_files(vec!["tsconfig.json".to_string(), ".vscode/settings.json".to_string()])
        .build();
    assert!(!is_jsonc_file("/asdf.json", &config));
    assert!(is_jsonc_file("/asdf.jsonc", &config));
    assert!(is_jsonc_file("/ASDF.JSONC", &config));
    assert!(is_jsonc_file("/tsconfig.json", &config));
    assert!(is_jsonc_file("/test/.vscode/settings.json", &config));
    assert!(!is_jsonc_file("/test/vscode/settings.json", &config));
    assert!(is_jsonc_file("test\\.vscode\\settings.json", &config));
}

#[test]
fn jsonc_classification_by_name() {
    let config = ConfigurationBuilder::new().json_trailing_comma_files(vec!["tsconfig.json".to_string()]).build();
    assert!(is_jsonc_file("/project/tsconfig.json", &config));
    assert!(is_jsonc_file("foo.JSONC", &config));
    assert!(is_jsonc_file("foo.JsOnC", &config));
    assert!(!is_jsonc_file("foo.json", &config));
    assert!(!is_jsonc_file(".jsonc", &config));
    assert!(!is_jsonc_file("a.jsonc/b.json", &config));
    assert!(!is_jsonc_file("mytsconfig.json", &config));
}

#[test]
fn strips_only_a_leading_byte_order_mark() {
    assert_eq!(strip_bom("\u{FEFF}{}"), "{}");
    assert_eq!(strip_bom("{}"), "{}");
    assert_eq!(strip_bom(""), "");
    assert_eq!(strip_bom("{}\u{FEFF}"), "{}\u{FEFF}");
    assert_eq!(strip_bom("\u{FEFF}\u{FEFF}"), "\u{FEFF}");
}

#[test]
fn format_result_reports_unchanged_text() {
    assert_eq!(format_result("[]\n", "[]\n".to_string()), None);
    assert_eq!(format_result("[ ]", "[]\n".to_string()), Some("[]\n".to_string()));
}

#[test]
fn line_index_counts_line_feeds() {
    let text = "a\nbc\r\n\nd".as_bytes();
    let lines = LineIndex::new(text);
    assert_eq!(lines.line_index(0), 0);
    assert_eq!(lines.line_index(1), 0);
    assert_eq!(lines.line_index(2), 1);
    assert_eq!(lines.line_index(5), 1);
    assert_eq!(lines.line_index(6), 2);
    assert_eq!(lines.line_index(7), 3);
    assert_eq!(lines.line_index(text.len()), 3);
}

fn token(kind: TokenKind, start: usize, end: usize) -> Token {
    Token { kind, range: Range { start, end } }
}

#[test]
fn token_finder_finds_commas_and_previous_tokens() {
    // [1, 2 ,3]
    let tokens = vec![
        token(TokenKind::OpenBracket, 0, 1),
        token(TokenKind::Number, 1, 2),
        token(TokenKind::Comma, 2, 3),
        token(TokenKind::Number, 4, 5),
        token(TokenKind::Comma, 6, 7),
        token(TokenKind::Number, 7, 8),
        token(TokenKind::CloseBracket, 8, 9),
    ];
    let mut finder = TokenFinder::new(&tokens);
    assert_eq!(finder.get_next_token_if_comma(2), Some(tokens[2]));
    assert_eq!(finder.get_next_token_if_comma(5), Some(tokens[4]));
    assert_eq!(finder.get_next_token_if_comma(8), None);
    assert_eq!(finder.get_previous_token(4), Some(tokens[2]));
    assert_eq!(finder.get_next_token_if_comma(1), None);
    assert_eq!(finder.get_previous_token(0), None);
    assert_eq!(finder.get_next_token_if_comma(9), None);
}
