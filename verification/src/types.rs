//! The shared data model: input and selection modes, join and alignment
//! policies, the immutable instruction bundle, and the record types that
//! flow through the pipeline.

use vstd::prelude::*;
use crate::selection::SplitError;

verus! {

/// How the input stream is cut into records.
#[derive(Clone, Copy, Debug, PartialEq, Eq, Structural)]
pub enum InputMode {
    /// One record per `\n`-terminated line (a preceding `\r` is stripped).
    PerLine,
    /// The whole input is a single record with no terminator.
    WholeString,
    /// One record per `\0`-terminated chunk.
    ZeroTerminated,
}

/// What one addressable unit of a record is.
#[derive(Clone, Copy, Debug, PartialEq, Eq, Structural)]
pub enum SelectionMode {
    /// Delimiter-separated fields.
    Fields,
    /// Raw bytes.
    Bytes,
    /// Extended grapheme clusters.
    Chars,
}

/// The separator policy between consecutive emitted units.
#[derive(Clone, Debug)]
pub enum JoinMode {
    /// Literal bytes.
    String(Vec<u8>),
    /// The default priority: delimiter after the current field, then the
    /// one before the next field, then the first non-empty delimiter in
    /// the record, then the last, then a single space.
    Auto,
    /// The delimiter that trailed the field just emitted.
    AfterPrevious,
    /// The delimiter leading the next field.
    BeforeNext,
    /// The first non-empty delimiter anywhere in the record.
    First,
    /// The last non-empty delimiter anywhere in the record.
    Last,
    /// A single space.
    Space,
    /// No separator at all.
    NoJoin,
}

/// How emitted columns are padded to line up across records.
#[derive(Clone, Copy, Debug, PartialEq, Eq, Structural)]
pub enum Align {
    /// Pad after the field's text, before the separator.
    Left,
    /// Pad before the field's text.
    Right,
    /// Pad around the separator and widen the separator itself to the
    /// column's widest separator.
    Squash,
    /// No alignment.
    NoAlign,
}

/// A delimiter as the user wrote it: a literal string to be escaped, or a
/// `/…/`-wrapped regular expression.
#[derive(Clone, Debug, PartialEq, Eq)]
pub enum Delimiter {
    Literal(Vec<u8>),
    Regex(Vec<u8>),
}

/// The compiled delimiter matcher: the plain engine for patterns it can
/// take, the backtracking engine for the rest (which can fail mid-scan).
pub enum RegexEngine {
    Simple(regex::Regex),
    Fancy(fancy_regex::Regex),
}

/// The immutable instruction bundle shared by every stage of a run.
pub struct Instructions {
    pub input_mode: InputMode,
    pub selection_mode: SelectionMode,
    pub selections: Vec<(i32, i32)>,
    pub invert: bool,
    pub skip_empty: bool,
    pub placeholder: Option<Vec<u8>>,
    pub strict_return: bool,
    pub strict_bounds: bool,
    pub strict_range_order: bool,
    pub strict_utf8: bool,
    pub count: bool,
    pub join: Option<JoinMode>,
    pub regex_engine: Option<RegexEngine>,
    pub align: Align,
}

/// What the collector needs to finish a run: the checks made when no
/// record arrived at all, and the record terminator choice.
pub struct OutputInstructions {
    pub count: bool,
    pub strict_return: bool,
    pub strict_bounds: bool,
    pub input_mode: InputMode,
    pub selections: Vec<(i32, i32)>,
}

/// One record read from the input, with its position in the stream.
pub struct Record {
    pub index: usize,
    pub bytes: Vec<u8>,
    pub has_terminator: bool,
    pub field_widths: Option<Vec<usize>>,
    pub join_widths: Option<Vec<usize>>,
}

/// One processed record, ready to be written.
pub struct OutputRecord {
    pub bytes: Vec<u8>,
    pub has_terminator: bool,
}

/// What one worker hands the collector for one batch: every output of the
/// batch in order, or the first per-record failure.
pub enum ResultChunk {
    Done { start_index: usize, outputs: Vec<OutputRecord> },
    Failed { index: usize, error: SplitError },
}

/// One field of a record: its text and the delimiter that trailed it
/// (empty for the final field).
pub struct Field {
    pub text: Vec<u8>,
    pub delimiter: Vec<u8>,
}

/// The ghost image of a `Field`: both spans as byte sequences.
pub ghost struct FieldView {
    pub text: Seq<u8>,
    pub delimiter: Seq<u8>,
}

impl View for Field {
    type V = FieldView;

    open spec fn view(&self) -> FieldView {
        FieldView { text: self.text@, delimiter: self.delimiter@ }
    }
}

impl DeepView for Field {
    type V = FieldView;

    open spec fn deep_view(&self) -> FieldView {
        self.view()
    }
}

} // verus!
