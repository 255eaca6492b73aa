use dprint_plugin_json::{
    resolve_config, strip_bom, syntax_error_message, Array, Comment, CommentKind,
    CommentMap, ConfigKeyMap, ConfigKeyValue, Configuration, ConfigurationBuilder, Document,
    GlobalConfiguration, Object, ObjectProp, PropName, Range, Token, TokenKind, Value,
};
use jsonc_parser::ast;
use jsonc_parser::tokens::{Token as ParsedToken, TokenAndRange};
use jsonc_parser::{parse_to_ast, CollectOptions, CommentCollectionStrategy};

fn range(r: &jsonc_parser::common::Range) -> Range {
    Range { start: r.start, end: r.end }
}

fn convert_value(value: &ast::Value) -> Value {
    match value {
        ast::Value::StringLit(s) => Value::StringLit(range(&s.range)),
        ast::Value::NumberLit(n) => Value::NumberLit(range(&n.range)),
        ast::Value::BooleanLit(b) => Value::BooleanLit(b.value, range(&b.range)),
        ast::Value::NullKeyword(n) => Value::NullKeyword(range(&n.range)),
        ast::Value::Array(a) => Value::Array(Array {
            range: range(&a.range),
            elements: a.elements.iter().map(convert_value).collect(),
        }),
        ast::Value::Object(o) => Value::Object(Object {
            range: range(&o.range),
            properties: o.properties.iter().map(convert_prop).collect(),
        }),
    }
}

fn convert_prop(prop: &ast::ObjectProp) -> ObjectProp {
    let name = match &prop.name {
        ast::ObjectPropName::String(s) => PropName::String(range(&s.range)),
        ast::ObjectPropName::Word(w) => PropName::Word(range(&w.range)),
    };
    ObjectProp { range: range(&prop.range), name, value: convert_value(&prop.value) }
}

fn convert_comment(comment: &ast::Comment) -> Comment {
    match comment {
        ast::Comment::Line(c) => Comment { kind: CommentKind::Line, text: c.text.to_string(), range: range(&c.range) },
        ast::Comment::Block(c) => Comment { kind: CommentKind::Block, text: c.text.to_string(), range: range(&c.range) },
    }
}

fn convert_token(token: &TokenAndRange) -> Token {
    let kind = match token.token {
        ParsedToken::OpenBrace => TokenKind::OpenBrace,
        ParsedToken::CloseBrace => TokenKind::CloseBrace,
        ParsedToken::OpenBracket => TokenKind::OpenBracket,
        ParsedToken::CloseBracket => TokenKind::CloseBracket,
        ParsedToken::Comma => TokenKind::Comma,
        ParsedToken::Colon => TokenKind::Colon,
        ParsedToken::String(_) => TokenKind::String,
        ParsedToken::Word(_) => TokenKind::Word,
        ParsedToken::Boolean(_) => TokenKind::Boolean,
        ParsedToken::Number(_) => TokenKind::Number,
        ParsedToken::Null => TokenKind::Null,
        ParsedToken::CommentLine(_) | ParsedToken::CommentBlock(_) => TokenKind::Word,
    };
    Token { kind, range: range(&token.range) }
}

fn parse_document(text: &str) -> Result<Document, String> {
    let options = CollectOptions { comments: CommentCollectionStrategy::Separate, tokens: true };
    let parsed = match parse_to_ast(text, &options, &Default::default()) {
        Ok(parsed) => parsed,
        Err(err) => {
            let r = err.range();
            return Err(syntax_error_message(r.start, r.end, &err.kind().to_string(), text).unwrap());
        }
    };
    let mut comments = CommentMap::new(text.len());
    for (offset, list) in parsed.comments.unwrap_or_default().iter() {
        assert!(comments.insert(*offset, list.iter().map(convert_comment).collect()));
    }
    let tokens = parsed.tokens.unwrap_or_default().iter().map(convert_token).collect();
    let value = parsed.value.as_ref().map(convert_value);
    Ok(Document::new(text.to_string(), value, tokens, comments).expect("the parser's ranges lie within the text"))
}

fn format_parsed(path: &str, text: &str, config: &Configuration) -> Result<Option<String>, String> {
    let doc = parse_document(strip_bom(text))?;
    Ok(dprint_plugin_json::format_text(path, text, &doc, config))
}

fn default_config() -> Configuration {
    resolve_config(ConfigKeyMap::new(), &GlobalConfiguration::default()).config
}

fn config_with(key: &str, value: &str) -> Configuration {
    let mut map = ConfigKeyMap::new();
    map.insert(key.to_string(), ConfigKeyValue::String(value.to_string()));
    let result = resolve_config(map, &GlobalConfiguration::default());
    assert!(result.diagnostics.is_empty());
    result.config
}

/// The text a format gives, the input itself where it reports no change.
fn formatted(path: &str, text: &str, config: &Configuration) -> String {
    format_parsed(path, text, config).unwrap().unwrap_or_else(|| text.to_string())
}

#[test]
fn should_error_on_syntax_diagnostic() {
    let message = format_parsed(".", "{ &*&* }", &default_config()).err().unwrap();
    assert_eq!(message, "Line 1, column 3: Unexpected token\n\n  { &*&* }\n    ~");
}

#[test]
fn no_panic_diagnostic_at_multibyte_char() {
    let message = format_parsed(".", "{ \"a\":\u{200b}5 }", &default_config()).err().unwrap();
    assert_eq!(message, "Line 1, column 7: Unexpected token\n\n  { \"a\":\u{200b}5 }\n        ~");
}

#[test]
fn no_panic_diagnostic_multiple_values() {
    let message = format_parsed(".", "{},\n", &default_config()).err().unwrap();
    assert_eq!(message, "Line 1, column 3: Text cannot contain more than one JSON value\n\n  {},");
}

#[test]
fn should_strip_bom() {
    for input_text in ["\u{FEFF}{}", "\u{FEFF}{ }"] {
        let output_text = format_parsed(".", input_text, &default_config()).unwrap().unwrap();
        assert_eq!(output_text, "{}\n");
    }
}

#[test]
fn single_line_object_stays_on_one_line() {
    let output = formatted("file.json", "{ \"a\": 1, \"b\": 2 }", &default_config());
    assert_eq!(output, "{ \"a\": 1, \"b\": 2 }\n");
    let output = formatted("file.json", "{\"a\":1,\"b\":2}", &default_config());
    assert_eq!(output, "{ \"a\": 1, \"b\": 2 }\n");
}

#[test]
fn trailing_commas_never_drops_the_last_comma() {
    let output = formatted("file.json", "[1,2,3,]", &config_with("trailingCommas", "never"));
    assert_eq!(output, "[1, 2, 3]\n");
}

#[test]
fn trailing_commas_always_adds_the_last_comma() {
    let output = formatted("file.json", "[1,2,3]", &config_with("trailingCommas", "always"));
    assert_eq!(output, "[1, 2, 3,]\n");
}

#[test]
fn trailing_commas_maintain_keeps_what_the_source_had() {
    let config = config_with("trailingCommas", "maintain");
    assert_eq!(formatted("file.json", "[1,2,3,]", &config), "[1, 2, 3,]\n");
    assert_eq!(formatted("file.json", "[1,2,3]", &config), "[1, 2, 3]\n");
}

#[test]
fn trailing_commas_jsonc_follows_the_file_kind() {
    let config = default_config();
    let multi_line = "{\n  \"a\": 1\n}\n";
    assert_eq!(formatted("file.json", multi_line, &config), "{\n  \"a\": 1\n}\n");
    assert_eq!(formatted("file.jsonc", multi_line, &config), "{\n  \"a\": 1,\n}\n");
}

#[test]
fn unchanged_text_is_reported_as_unchanged() {
    let config = default_config();
    assert_eq!(format_parsed("file.json", "{ \"a\": 1 }\n", &config).unwrap(), None);
    assert_eq!(format_parsed("file.json", "[]\n", &config).unwrap(), None);
    assert_eq!(
        format_parsed("file.json", "[ ]", &config).unwrap(),
        Some("[]\n".to_string())
    );
}

#[test]
fn formatting_twice_gives_the_same_text() {
    let config = default_config();
    let inputs = [
        "{\"a\":[1,2,{\"b\":null}],\n\"c\":'x'}",
        "// leading\n[\n  1, // one\n\n  2 /* two */\n]\n",
        "{a: true, 'b': \"it's\"}",
        "[\n]",
    ];
    for input in inputs {
        let once = formatted("file.jsonc", input, &config);
        assert_eq!(format_parsed("file.jsonc", &once, &config).unwrap(), None, "{}", once);
    }
}

#[test]
fn strings_and_words_get_double_quotes() {
    let output = formatted("file.json", "{ a: 'it\\'s \"x\"' }", &default_config());
    assert_eq!(output, "{ \"a\": \"it's \\\"x\\\"\" }\n");
}

#[test]
fn ignore_comment_keeps_the_value_as_written() {
    let input = "{\n  // dprint-ignore\n  \"a\": [1,2,   3],\n  \"b\": [4,5]\n}\n";
    let output = formatted("file.json", input, &default_config());
    assert_eq!(output, "{\n  // dprint-ignore\n  \"a\": [1,2,   3],\n  \"b\": [4, 5]\n}\n");
}

#[test]
fn each_comment_is_written_once() {
    let input = "/* a */ { // b\n  \"x\": /* c */ 1, // d\n  // e\n  \"y\": [ /* f */ ] // g\n  // h\n} // i\n// j\n";
    let output = formatted("file.jsonc", input, &default_config());
    for name in ["a", "b", "c", "d", "e", "f", "g", "h", "i", "j"] {
        let block = format!("/* {} */", name);
        let line = format!("// {}", name);
        let count = output.matches(&block).count() + output.matches(&line).count();
        assert_eq!(count, 1, "comment {} in {}", name, output);
    }
}

#[test]
fn only_comments_are_kept() {
    let output = formatted("file.jsonc", "// just a comment\n", &default_config());
    assert_eq!(output, "// just a comment\n");
    assert_eq!(format_parsed("file.json", "", &default_config()).unwrap(), None);
}

#[test]
fn deno_settings_use_their_ignore_comment() {
    let mut builder = ConfigurationBuilder::new();
    let config = builder.deno().build();
    let input = "{\n  // deno-fmt-ignore\n  \"a\": [1,2]\n}\n";
    assert_eq!(formatted("file.json", input, &config), input);
}

#[test]
fn long_single_line_arrays_break_up() {
    let mut builder = ConfigurationBuilder::new();
    let config = builder.line_width(10).build();
    let output = formatted("file.json", "[1, 2, 3, 4, 5, 6, 7, 8, 9, 10, 11]", &config);
    assert_eq!(output, "[\n  1,\n  2,\n  3,\n  4,\n  5,\n  6,\n  7,\n  8,\n  9,\n  10,\n  11\n]\n");
}

#[test]
fn new_line_kind_sets_the_line_ending() {
    let input = "{\n\"a\":1,\n\"b\":2}";
    assert_eq!(formatted("file.json", input, &config_with("newLineKind", "crlf")), "{\r\n  \"a\": 1,\r\n  \"b\": 2\r\n}\r\n");
    assert_eq!(formatted("file.json", input, &config_with("newLineKind", "lf")), "{\n  \"a\": 1,\n  \"b\": 2\n}\n");
    let crlf_input = "{\r\n\"a\":1,\r\n\"b\":2}";
    assert_eq!(formatted("file.json", crlf_input, &config_with("newLineKind", "auto")), "{\r\n  \"a\": 1,\r\n  \"b\": 2\r\n}\r\n");
    assert_eq!(formatted("file.json", input, &config_with("newLineKind", "auto")), "{\n  \"a\": 1,\n  \"b\": 2\n}\n");
}

#[test]
fn blank_lines_between_values_are_kept_once() {
    let input = "[\n  1,\n\n\n  2\n]\n";
    assert_eq!(formatted("file.json", input, &default_config()), "[\n  1,\n\n  2\n]\n");
}

#[test]
fn tabs_and_indent_width_apply() {
    let mut builder = ConfigurationBuilder::new();
    let config = builder.use_tabs(true).build();
    assert_eq!(formatted("file.json", "{\n\"a\": [\n1]}", &config), "{\n\t\"a\": [\n\t\t1\n\t]\n}\n");
    let mut builder = ConfigurationBuilder::new();
    let config = builder.indent_width(4).build();
    assert_eq!(formatted("file.json", "{\n\"a\": 1}", &config), "{\n    \"a\": 1\n}\n");
}

#[test]
fn prefer_single_line_collapses_short_values() {
    let mut builder = ConfigurationBuilder::new();
    let config = builder.prefer_single_line(true).build();
    assert_eq!(formatted("file.json", "{\n\"a\": [\n1, 2]}", &config), "{ \"a\": [1, 2] }\n");
}

#[test]
fn strings_with_raw_tabs_and_line_feeds_print() {
    let input = "[\"a\tb\", \"c\nd\"]";
    let output = formatted("file.json", input, &default_config());
    // the strings keep their bytes; the line feed inside one breaks the list
    assert_eq!(output, "[\n  \"a\tb\",\n\"c\nd\"\n]\n");
}
