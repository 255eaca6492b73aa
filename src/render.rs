//! Printing an instruction tree with dprint's printer, and the text of
//! syntax errors.
use crate::ast::Document;
use crate::config::{Configuration, NewLineKind};
use crate::format::{format_result, is_jsonc_file, is_jsonc_path, string_views};
use crate::generate::{generate, generated};
use crate::ir::{Ir, LinesSpan, SeparatedValue, Signal};
use dprint_core::configuration::NewLineKind as PrinterNewLineKind;
use dprint_core::formatting::ir_helpers;
use dprint_core::formatting::Signal as PrinterSignal;
use dprint_core::formatting::{condition_resolvers, conditions};
use dprint_core::formatting::ir_helpers::{GeneratedValue, MultiLineOptions, SingleLineOptions};
use dprint_core::formatting::PrintItems;
use vstd::prelude::*;
use vstd::string::StringSliceAdditionalSpecFns;

verus! {

#[verifier::external_type_specification]
#[verifier::external_body]
pub struct ExPrintItems(PrintItems);

#[verifier::external_type_specification]
#[verifier::external_body]
pub struct ExGeneratedValue(GeneratedValue);

#[verifier::external_type_specification]
#[verifier::external_body]
pub struct ExSingleLineOptions(SingleLineOptions);

#[verifier::external_type_specification]
#[verifier::external_body]
pub struct ExMultiLineOptions(MultiLineOptions);

/// Relies on dprint_core's `PrintItems::new`: an empty list of print items.
pub assume_specification[ PrintItems::new ]() -> PrintItems;

/// Relies on dprint_core's `PrintItems::extend`: appends the items.
pub assume_specification[ PrintItems::extend ](items: &mut PrintItems, other: PrintItems);

/// Relies on dprint_core's `PrintItems::push_string`: appends text. The bytes
/// are UTF-8 text, which `String::from_utf8_lossy` carries over as they stand.
/// The printer refuses a tab or a line feed in such text.
#[verifier::external_body]
fn push_text(items: &mut PrintItems, text: &Vec<u8>)
    requires
        !text@.contains(9u8),
        !text@.contains(10u8),
{
    items.push_string(String::from_utf8_lossy(text).into_owned())
}

/// Relies on dprint_core's `PrintItems::push_signal`: appends the printer
/// signal of the same name.
#[verifier::external_body]
fn push_signal(items: &mut PrintItems, signal: Signal) {
    items.push_signal(match signal {
        Signal::NewLine => PrinterSignal::NewLine,
        Signal::SpaceOrNewLine => PrinterSignal::SpaceOrNewLine,
        Signal::SpaceIfNotTrailing => PrinterSignal::SpaceIfNotTrailing,
    })
}

/// Relies on dprint_core's `ir_helpers::gen_from_raw_string`: the text as it
/// stands, its lines at their own indentation.
#[verifier::external_body]
fn raw_items(text: &Vec<u8>) -> PrintItems {
    ir_helpers::gen_from_raw_string(&String::from_utf8_lossy(text))
}

/// Relies on dprint_core's `ir_helpers::gen_js_like_comment_line`: `//` and
/// the comment's text, with a space after the slashes where `force_space`.
#[verifier::external_body]
fn line_comment_items(text: &str, force_space: bool) -> PrintItems {
    ir_helpers::gen_js_like_comment_line(text, force_space)
}

/// Relies on dprint_core's `ir_helpers::gen_js_like_comment_block`: the
/// comment's text between `/*` and `*/`.
#[verifier::external_body]
fn block_comment_items(text: &str) -> PrintItems {
    ir_helpers::gen_js_like_comment_block(text)
}

/// Relies on dprint_core's `ir_helpers::with_no_new_lines`: the items, with
/// no line break written within them.
#[verifier::external_body]
fn no_new_lines_items(items: PrintItems) -> PrintItems {
    ir_helpers::with_no_new_lines(items)
}

/// Relies on dprint_core's `ir_helpers::SingleLineOptions`: how separated
/// values stand on one line.
#[verifier::external_body]
fn single_line_options(space_at_start: bool, space_at_end: bool, separator: Signal) -> SingleLineOptions {
    let mut separator_items = PrintItems::new();
    push_signal(&mut separator_items, separator);
    SingleLineOptions { space_at_start, space_at_end, separator: separator_items }
}

/// Relies on dprint_core's `ir_helpers::MultiLineOptions`: how separated
/// values stand on several lines.
#[verifier::external_body]
fn multi_line_options(
    newline_at_start: bool,
    newline_at_end: bool,
    with_indent: bool,
    with_hanging_indent: bool,
    maintain_line_breaks: bool,
) -> MultiLineOptions {
    MultiLineOptions {
        newline_at_start,
        newline_at_end,
        with_indent,
        with_hanging_indent: ir_helpers::BoolOrCondition::Bool(with_hanging_indent),
        maintain_line_breaks,
    }
}

/// Relies on dprint_core's `ir_helpers::with_indent`: the items, one level
/// deeper.
#[verifier::external_body]
fn indented_items(items: PrintItems) -> PrintItems {
    ir_helpers::with_indent(items)
}

/// Relies on dprint_core's `ir_helpers::new_line_group`: the items as one
/// group for line breaking.
#[verifier::external_body]
fn line_group_items(items: PrintItems) -> PrintItems {
    ir_helpers::new_line_group(items)
}

/// Relies on dprint_core's `ir_helpers::GeneratedValue`: one value of a
/// separated list, with the lines it spans in the source.
#[verifier::external_body]
fn generated_value(
    items: PrintItems,
    span: Option<LinesSpan>,
    allow_inline_multi_line: bool,
    allow_inline_single_line: bool,
    is_known_multi_line: bool,
) -> GeneratedValue {
    GeneratedValue {
        items,
        lines_span: span.map(|s| ir_helpers::LinesSpan { start_line: s.start_line, end_line: s.end_line }),
        allow_inline_multi_line,
        allow_inline_single_line,
        is_known_multi_line,
    }
}

/// Relies on dprint_core's `ir_helpers::gen_separated_values`: the values
/// separated as the options say, all on one line where they fit and no
/// break is forced, else each on its own line, keeping one blank line where
/// the source had one and `allow_blank_lines`.
#[verifier::external_body]
fn separated_values_items(
    values: Vec<GeneratedValue>,
    prefer_hanging: bool,
    force_use_new_lines: bool,
    allow_blank_lines: bool,
    single_line_options: SingleLineOptions,
    indent_width: u8,
    multi_line_options: MultiLineOptions,
    force_possible_newline_at_start: bool,
) -> PrintItems {
    ir_helpers::gen_separated_values(|_| values, ir_helpers::GenSeparatedValuesOptions {
        prefer_hanging,
        force_use_new_lines,
        allow_blank_lines,
        single_line_options,
        indent_width,
        multi_line_options,
        force_possible_newline_at_start,
    }).items
}

/// Relies on dprint_core's `conditions::if_true` with the resolver
/// `condition_resolvers::is_not_start_of_line`: a line break unless the
/// printer stands at the start of a line.
#[verifier::external_body]
fn push_new_line_if_not_start_of_line(items: &mut PrintItems) {
    items.push_condition(conditions::if_true(
        "newLineIfHasCommentsAndNotStartOfNewLine",
        condition_resolvers::is_not_start_of_line(),
        PrinterSignal::NewLine.into(),
    ))
}

/// Whether the text holds a tab or a line feed.
fn has_break_or_tab(text: &Vec<u8>) -> (r: bool)
    ensures
        r == (text@.contains(9u8) || text@.contains(10u8)),
{
    let mut i: usize = 0;
    while i < text.len()
        invariant
            i <= text@.len(),
            forall|k: int| 0 <= k < i ==> text@[k] != 9u8 && text@[k] != 10u8,
        decreases text@.len() - i,
    {
        if text[i] == 9u8 || text[i] == 10u8 {
            assert(text@[i as int] == text@[i as int]);
            return true;
        }
        i = i + 1;
    }
    false
}

/// The print items of an instruction tree.
fn to_print_items(ir: &Vec<Ir>, indent_width: u8) -> (r: PrintItems)
    decreases ir, 2int,
{
    let mut items = PrintItems::new();
    let mut i: usize = 0;
    while i < ir.len()
        invariant
            i <= ir@.len(),
        decreases ir@.len() - i,
    {
        match &ir[i] {
            Ir::Text(text) => {
                if has_break_or_tab(text) {
                    items.extend(raw_items(text));
                } else {
                    push_text(&mut items, text);
                }
            },
            Ir::Comma => push_text(&mut items, &vec![44u8]),
            Ir::Raw(text) => items.extend(raw_items(text)),
            Ir::Signal(signal) => push_signal(&mut items, *signal),
            Ir::LineComment(c, force_space) => items.extend(line_comment_items(c.text.as_str(), *force_space)),
            Ir::BlockComment(c) => items.extend(block_comment_items(c.text.as_str())),
            Ir::Indented(inner) => items.extend(indented_items(to_print_items(inner, indent_width))),
            Ir::NewLineGroup(inner) => items.extend(line_group_items(to_print_items(inner, indent_width))),
            Ir::NoNewLines(inner) => items.extend(no_new_lines_items(to_print_items(inner, indent_width))),
            Ir::SeparatedValues { values, force_use_new_lines, space_at_start, space_at_end } => {
                let generated = to_generated_values(values, indent_width);
                // the values of a list: blank lines of the source are kept, a
                // space or a line break between two values, one value per
                // indented line where they break
                let single = single_line_options(*space_at_start, *space_at_end, Signal::SpaceOrNewLine);
                let multi = multi_line_options(true, true, true, false, false);
                items.extend(
                    separated_values_items(
                        generated,
                        false,
                        *force_use_new_lines,
                        true,
                        single,
                        indent_width,
                        multi,
                        false,
                    ),
                );
            },
            Ir::NewLineIfNotStartOfLine => push_new_line_if_not_start_of_line(&mut items),
        }
        i = i + 1;
    }
    items
}

fn to_generated_values(values: &Vec<SeparatedValue>, indent_width: u8) -> (r: Vec<GeneratedValue>)
    decreases values, 1int,
{
    let mut generated: Vec<GeneratedValue> = Vec::new();
    let mut i: usize = 0;
    while i < values.len()
        invariant
            i <= values@.len(),
        decreases values@.len() - i,
    {
        let value = &values[i];
        let items = to_print_items(&value.items, indent_width);
        generated.push(generated_value(items, value.lines_span, value.allow_inline_multi_line, false, false));
        i = i + 1;
    }
    generated
}

/// The line ending that `auto` picks for a text: that of its last line
/// feed, a carriage return and line feed where one stands before it.
pub open spec fn auto_new_line(text: Seq<u8>) -> Seq<char>
    decreases text.len(),
{
    if text.len() == 0 {
        "\n"@
    } else if text.last() == 10u8 {
        if text.len() >= 2 && text[text.len() - 2] == 13u8 {
            "\r\n"@
        } else {
            "\n"@
        }
    } else {
        auto_new_line(text.drop_last())
    }
}

/// Relies on dprint_core's `configuration::resolve_new_line_kind`: the line
/// ending to write for the configured kind.
#[verifier::external_body]
fn new_line_text(text: &str, kind: NewLineKind) -> (r: &'static str)
    ensures
        r@ == new_line_for(kind, text.spec_bytes()),
{
    dprint_core::configuration::resolve_new_line_kind(text, match kind {
        NewLineKind::Auto => PrinterNewLineKind::Auto,
        NewLineKind::LineFeed => PrinterNewLineKind::LineFeed,
        NewLineKind::CarriageReturnLineFeed => PrinterNewLineKind::CarriageReturnLineFeed,
    })
}

/// The text that the printer writes for an instruction tree with these
/// options.
pub uninterp spec fn printed_text(ir: Seq<Ir>, line_width: u32, indent_width: u8, use_tabs: bool, new_line: Seq<char>) -> Seq<char>;

/// Relies on dprint_core's `formatting::format`: prints the items that the
/// closure builds within the line width, with the given indentation and
/// line ending; the text depends on these alone.
#[verifier::external_body]
fn print_ir(ir: &Vec<Ir>, line_width: u32, indent_width: u8, use_tabs: bool, new_line: &'static str) -> (r: String)
    ensures
        r@ == printed_text(ir@, line_width, indent_width, use_tabs, new_line@),
{
    let options = dprint_core::formatting::PrintOptions {
        indent_width,
        max_width: line_width,
        use_tabs,
        new_line_text: new_line,
    };
    dprint_core::formatting::format(|| to_print_items(ir, indent_width), options)
}

/// The line ending to write for the configured kind and the text.
pub open spec fn new_line_for(kind: NewLineKind, text: Seq<u8>) -> Seq<char> {
    match kind {
        NewLineKind::LineFeed => "\n"@,
        NewLineKind::CarriageReturnLineFeed => "\r\n"@,
        NewLineKind::Auto => auto_new_line(text),
    }
}

/// The text that an instruction tree prints to under a configuration, with
/// `source` deciding an `auto` line ending.
pub open spec fn printed_for(ir: Seq<Ir>, config: Configuration, source: Seq<u8>) -> Seq<char> {
    printed_text(ir, config.line_width, config.indent_width, config.use_tabs, new_line_for(config.new_line_kind, source))
}

/// Prints an instruction tree and compares it with the file's text: `None`
/// where the printed text is the text as it stands. `source` is the text
/// without its byte order mark.
pub fn print_and_compare(text: &str, source: &str, ir: &Vec<Ir>, config: &Configuration) -> (r: Option<String>)
    ensures
        r is None <==> printed_for(ir@, *config, source.spec_bytes()) == text@,
        r matches Some(s) ==> s@ == printed_for(ir@, *config, source.spec_bytes()),
{
    let new_line = new_line_text(source, config.new_line_kind);
    let printed = print_ir(ir, config.line_width, config.indent_width, config.use_tabs, new_line);
    format_result(text, printed)
}

/// Formats a parsed document. `text` is the file as read, `doc` the parse of
/// that text without its byte order mark. `None` where the output is the
/// text as it stands; else the printed text of the generated tree.
pub fn format_text(path: &str, text: &str, doc: &Document, config: &Configuration) -> (r: Option<String>)
    ensures
        r matches Some(s) ==> s@ != text@,
        exists|ir: Seq<Ir>|
            #![trigger generated(doc, config, is_jsonc_path(path@, string_views(config.json_trailing_comma_files@)), ir)]
            generated(doc, config, is_jsonc_path(path@, string_views(config.json_trailing_comma_files@)), ir) && (r is None <==> printed_for(ir, *config, doc.spec_text_bytes()) == text@)
                && (r matches Some(s) ==> s@ == printed_for(ir, *config, doc.spec_text_bytes())),
{
    let is_jsonc = is_jsonc_file(path, config);
    let ir = generate(doc, config, is_jsonc);
    let r = print_and_compare(text, doc.text(), &ir, config);
    assert(generated(doc, config, is_jsonc, ir@));
    r
}

/// The text of a syntax error: its line and column, the message, and the
/// source line with the erroneous span underlined.
pub uninterp spec fn syntax_error_text(start: int, end: int, message: Seq<char>, text: Seq<char>) -> Seq<char>;

/// Relies on dprint_core's `utils::string_utils::format_diagnostic`, which
/// depends on its arguments alone; it slices the text at both positions.
#[verifier::external_body]
fn format_diagnostic(start: usize, end: usize, message: &str, text: &str) -> (r: String)
    requires
        start <= end <= text.spec_bytes().len(),
        vstd::utf8::is_char_boundary(text.spec_bytes(), start as int),
        vstd::utf8::is_char_boundary(text.spec_bytes(), end as int),
    ensures
        r@ == syntax_error_text(start as int, end as int, message@, text@),
{
    dprint_core::formatting::utils::string_utils::format_diagnostic(Some((start, end)), message, text)
}

/// The message of a syntax error at `start..end` of `text`; `None` where the
/// span does not lie on character boundaries within the text.
pub fn syntax_error_message(start: usize, end: usize, message: &str, text: &str) -> (r: Option<String>)
    ensures
        r is Some <==> start <= end <= text.len() && vstd::utf8::is_char_boundary(
            text.spec_bytes(),
            start as int,
        ) && vstd::utf8::is_char_boundary(text.spec_bytes(), end as int),
        r matches Some(m) ==> m@ == syntax_error_text(start as int, end as int, message@, text@),
{
    proof {
        vstd::utf8::encode_utf8_valid_utf8(text@);
    }
    let in_text = start <= end && end <= text.len();
    let start_ok = text.is_char_boundary(start);
    let end_ok = text.is_char_boundary(end);
    if in_text && start_ok && end_ok {
        Some(format_diagnostic(start, end, message, text))
    } else {
        None
    }
}

} // verus!
