//! The layout instruction tree that the generator builds and the printer
//! resolves against the line width.
use crate::ast::Comment;
use vstd::prelude::*;

verus! {

/// A marker for the printer, which decides at print time what it becomes.
#[derive(Clone, Copy, Debug, PartialEq, Eq, Structural)]
pub enum Signal {
    /// A line break.
    NewLine,
    /// A space, or a line break where the line does not fit.
    SpaceOrNewLine,
    /// A space, unless it would end the line.
    SpaceIfNotTrailing,
}

/// The source lines that a value spans, its comments included; the printer
/// keeps one blank line between two values where the source had one.
#[derive(Clone, Copy, Debug, PartialEq, Eq, Structural)]
pub struct LinesSpan {
    pub start_line: usize,
    pub end_line: usize,
}

/// One value of a separated list.
#[derive(Debug)]
pub struct SeparatedValue {
    pub items: Vec<Ir>,
    pub lines_span: Option<LinesSpan>,
    /// The value may stay on the line of the previous one even where it
    /// spans several lines.
    pub allow_inline_multi_line: bool,
}

/// The layout instruction tree: text to write and decisions left to the
/// printer, which resolves them against the line width.
#[derive(Debug)]
pub enum Ir {
    /// UTF-8 text.
    Text(Vec<u8>),
    /// The comma after a member of a list.
    Comma,
    /// Source text kept as it stands, line breaks included.
    Raw(Vec<u8>),
    Signal(Signal),
    /// A line comment; the text is what follows the slashes.
    LineComment(Comment, bool),
    /// A block comment; the text is what stands between the delimiters.
    BlockComment(Comment),
    /// Items written one indent level deeper.
    Indented(Vec<Ir>),
    /// Items that the printer breaks as one group.
    NewLineGroup(Vec<Ir>),
    /// Items within which no line break is written.
    NoNewLines(Vec<Ir>),
    /// Values separated by a space or a line break: all on one line if
    /// they fit and no break is forced, else one per line, indented.
    SeparatedValues {
        values: Vec<SeparatedValue>,
        force_use_new_lines: bool,
        space_at_start: bool,
        space_at_end: bool,
    },
    /// A line break unless the printer stands at the start of a line.
    NewLineIfNotStartOfLine,
}

/// The start offsets of the comments written by `items`, in order.
pub open spec fn ir_comments(items: Seq<Ir>) -> Seq<usize>
    decreases items,
{
    if items.len() == 0 {
        Seq::empty()
    } else {
        ir_comments(items.drop_last()) + item_comments(items.last())
    }
}

pub open spec fn item_comments(item: Ir) -> Seq<usize>
    decreases item,
{
    match item {
        Ir::LineComment(c, _) => seq![c.range.start],
        Ir::BlockComment(c) => seq![c.range.start],
        Ir::Indented(inner) => ir_comments(inner@),
        Ir::NewLineGroup(inner) => ir_comments(inner@),
        Ir::NoNewLines(inner) => ir_comments(inner@),
        Ir::SeparatedValues { values, .. } => values_comments(values@),
        _ => Seq::empty(),
    }
}

pub open spec fn values_comments(values: Seq<SeparatedValue>) -> Seq<usize>
    decreases values,
{
    if values.len() == 0 {
        Seq::empty()
    } else {
        values_comments(values.drop_last()) + ir_comments(values.last().items@)
    }
}

} // verus!
