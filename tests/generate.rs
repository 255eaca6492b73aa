use dprint_plugin_json::{
    generate, resolve_config, should_have_comma, Array, Comment, CommentKind, CommentMap, ConfigKeyMap,
    Configuration, Document, GlobalConfiguration, Ir, Range, Signal, Token, TokenKind, TrailingCommaKind,
    Value,
};

fn default_config() -> Configuration {
    resolve_config(ConfigKeyMap::new(), &GlobalConfiguration::default()).config
}

fn r(start: usize, end: usize) -> Range {
    Range { start, end }
}

fn token(kind: TokenKind, start: usize, end: usize) -> Token {
    Token { kind, range: r(start, end) }
}

/// `[1,2,3]` or, with `trailing`, `[1,2,3,]`.
fn numbers_document(trailing: bool) -> Document {
    let text = if trailing { "[1,2,3,]" } else { "[1,2,3]" };
    let end = text.len();
    let elements = vec![Value::NumberLit(r(1, 2)), Value::NumberLit(r(3, 4)), Value::NumberLit(r(5, 6))];
    let mut tokens = vec![
        token(TokenKind::OpenBracket, 0, 1),
        token(TokenKind::Number, 1, 2),
        token(TokenKind::Comma, 2, 3),
        token(TokenKind::Number, 3, 4),
        token(TokenKind::Comma, 4, 5),
        token(TokenKind::Number, 5, 6),
    ];
    if trailing {
        tokens.push(token(TokenKind::Comma, 6, 7));
    }
    tokens.push(token(TokenKind::CloseBracket, end - 1, end));
    let value = Value::Array(Array { range: r(0, end), elements });
    Document::new(text.to_string(), Some(value), tokens, CommentMap::new(end)).unwrap()
}

/// The text of the items, with their nested items, in order.
fn texts(items: &[Ir], out: &mut Vec<String>) {
    for item in items {
        match item {
            Ir::Text(t) | Ir::Raw(t) => out.push(String::from_utf8(t.clone()).unwrap()),
            Ir::LineComment(c, _) | Ir::BlockComment(c) => out.push(format!("comment:{}", c.text)),
            Ir::Comma => out.push(",".to_string()),
            Ir::Indented(inner) | Ir::NewLineGroup(inner) | Ir::NoNewLines(inner) => texts(inner, out),
            Ir::SeparatedValues { values, .. } => {
                for v in values {
                    texts(&v.items, out);
                }
            }
            Ir::Signal(_) | Ir::NewLineIfNotStartOfLine => {}
        }
    }
}

fn all_texts(items: &[Ir]) -> Vec<String> {
    let mut out = Vec::new();
    texts(items, &mut out);
    out
}

#[test]
fn comma_policy_table() {
    for n in 1..5usize {
        for i in 0..n {
            let last = i == n - 1;
            for source in [false, true] {
                for jsonc in [false, true] {
                    assert!(should_have_comma(i, n, TrailingCommaKind::Always, jsonc, source));
                    assert_eq!(should_have_comma(i, n, TrailingCommaKind::Never, jsonc, source), !last);
                    assert_eq!(should_have_comma(i, n, TrailingCommaKind::Jsonc, jsonc, source), !last || jsonc);
                    assert_eq!(should_have_comma(i, n, TrailingCommaKind::Maintain, jsonc, source), !last || source);
                }
            }
        }
    }
}

#[test]
fn always_puts_a_comma_after_every_element() {
    let mut config = default_config();
    config.trailing_commas = TrailingCommaKind::Always;
    let items = generate(&numbers_document(false), &config, false);
    assert_eq!(all_texts(&items), vec!["[", "1", ",", "2", ",", "3", ",", "]"]);
    assert!(matches!(items.last(), Some(Ir::Signal(Signal::NewLine))));
}

#[test]
fn never_drops_the_comma_after_the_last_element() {
    let mut config = default_config();
    config.trailing_commas = TrailingCommaKind::Never;
    let items = generate(&numbers_document(true), &config, true);
    assert_eq!(all_texts(&items), vec!["[", "1", ",", "2", ",", "3", "]"]);
}

#[test]
fn maintain_follows_the_source_comma() {
    let mut config = default_config();
    config.trailing_commas = TrailingCommaKind::Maintain;
    let with = generate(&numbers_document(true), &config, false);
    assert_eq!(all_texts(&with), vec!["[", "1", ",", "2", ",", "3", ",", "]"]);
    let without = generate(&numbers_document(false), &config, false);
    assert_eq!(all_texts(&without), vec!["[", "1", ",", "2", ",", "3", "]"]);
}

#[test]
fn jsonc_policy_follows_the_file_kind() {
    let config = default_config();
    let json = generate(&numbers_document(false), &config, false);
    assert_eq!(all_texts(&json), vec!["[", "1", ",", "2", ",", "3", "]"]);
    let jsonc = generate(&numbers_document(false), &config, true);
    assert_eq!(all_texts(&jsonc), vec!["[", "1", ",", "2", ",", "3", ",", "]"]);
}

#[test]
fn ignored_value_is_kept_as_raw_source() {
    // /* dprint-ignore */ [1,   2]
    let text = "/* dprint-ignore */ [1,   2]";
    let comment = Comment { kind: CommentKind::Block, text: " dprint-ignore ".to_string(), range: r(0, 19) };
    let mut comments = CommentMap::new(text.len());
    assert!(comments.insert(20, vec![comment]));
    let value = Value::Array(Array {
        range: r(20, 28),
        elements: vec![Value::NumberLit(r(21, 22)), Value::NumberLit(r(26, 27))],
    });
    let tokens = vec![
        token(TokenKind::OpenBracket, 20, 21),
        token(TokenKind::Number, 21, 22),
        token(TokenKind::Comma, 22, 23),
        token(TokenKind::Number, 26, 27),
        token(TokenKind::CloseBracket, 27, 28),
    ];
    let doc = Document::new(text.to_string(), Some(value), tokens, comments).unwrap();
    let items = generate(&doc, &default_config(), false);
    assert!(items.iter().any(|i| matches!(i, Ir::Raw(b) if b.as_slice() == "[1,   2]".as_bytes())));
    assert_eq!(all_texts(&items), vec!["comment: dprint-ignore ", "", "[1,   2]"]);
}

#[test]
fn a_comment_at_two_anchors_is_written_once() {
    // [1 /* c */]
    let text = "[1 /* c */]";
    let comment = Comment { kind: CommentKind::Block, text: " c ".to_string(), range: r(3, 10) };
    let mut comments = CommentMap::new(text.len());
    assert!(comments.insert(2, vec![comment.clone()]));
    assert!(comments.insert(10, vec![comment]));
    let value = Value::Array(Array { range: r(0, 11), elements: vec![Value::NumberLit(r(1, 2))] });
    let tokens = vec![
        token(TokenKind::OpenBracket, 0, 1),
        token(TokenKind::Number, 1, 2),
        token(TokenKind::CloseBracket, 10, 11),
    ];
    let doc = Document::new(text.to_string(), Some(value), tokens, comments).unwrap();
    let items = generate(&doc, &default_config(), false);
    let count = all_texts(&items).iter().filter(|t| t.as_str() == "comment: c ").count();
    assert_eq!(count, 1);
}

#[test]
fn documents_with_ranges_outside_the_text_are_refused() {
    let value = Value::NumberLit(r(0, 5));
    assert!(Document::new("12".to_string(), Some(value), Vec::new(), CommentMap::new(2)).is_none());
    let unordered = vec![token(TokenKind::Number, 1, 2), token(TokenKind::Comma, 0, 1)];
    assert!(Document::new("12".to_string(), None, unordered, CommentMap::new(2)).is_none());
    assert!(Document::new("12".to_string(), None, Vec::new(), CommentMap::new(3)).is_none());
    let mut comments = CommentMap::new(2);
    let comment = Comment { kind: CommentKind::Line, text: String::new(), range: r(0, 3) };
    assert!(!comments.insert(0, vec![comment]));
}

#[test]
fn an_empty_document_generates_nothing() {
    let doc = Document::new(String::new(), None, Vec::new(), CommentMap::new(0)).unwrap();
    assert!(generate(&doc, &default_config(), false).is_empty());
}

#[test]
fn string_literals_are_normalized() {
    let text = "'a\\'b\"c'";
    let doc = Document::new(
        text.to_string(),
        Some(Value::StringLit(r(0, text.len()))),
        vec![token(TokenKind::String, 0, text.len())],
        CommentMap::new(text.len()),
    )
    .unwrap();
    let items = generate(&doc, &default_config(), false);
    assert_eq!(all_texts(&items), vec!["\"a'b\\\"c\""]);
}
