//! The command-line layer's pure logic: flag dispatch, quote trimming,
//! hex and selection-token grammars, join and alignment keyword parsing,
//! and the validations that reject inconsistent flag combinations.

use vstd::prelude::*;
use crate::cli_tokens::{lit_dash_d_prefix, lit_eq_align, lit_eq_delimiter, lit_eq_input, lit_eq_join, lit_eq_output, lit_eq_placeholder, lit_hex_lower, lit_hex_upper, lit_j_after_previous, lit_j_auto, lit_j_before_next, lit_j_first, lit_j_last, lit_j_none, lit_j_space, lit_k_end, lit_k_first, lit_k_last, lit_k_left, lit_k_none, lit_k_right, lit_k_squash, lit_k_start, lit_s_a, lit_s_b, lit_s_c, lit_s_d, lit_s_e, lit_s_ee, lit_s_f, lit_s_h, lit_s_i, lit_s_j, lit_s_o, lit_s_p, lit_s_v, lit_s_w, lit_s_z, lit_w_align, lit_w_bytes, lit_w_characters, lit_w_count, lit_w_delimiter, lit_w_fields, lit_w_help, lit_w_input, lit_w_invert, lit_w_join, lit_w_no_skip_empty, lit_w_no_strict, lit_w_no_strict_bounds, lit_w_no_strict_range_order, lit_w_no_strict_return, lit_w_no_strict_utf8, lit_w_output, lit_w_per_line, lit_w_placeholder, lit_w_skip_empty, lit_w_strict, lit_w_strict_bounds, lit_w_strict_range_order, lit_w_strict_return, lit_w_strict_utf8, lit_w_version, lit_w_whole_string, lit_w_zero_terminated, tok_dash_d_prefix, tok_eq_align, tok_eq_delimiter, tok_eq_input, tok_eq_join, tok_eq_output, tok_eq_placeholder, tok_hex_lower, tok_hex_upper, tok_j_after_previous, tok_j_auto, tok_j_before_next, tok_j_first, tok_j_last, tok_j_none, tok_j_space, tok_k_end, tok_k_first, tok_k_last, tok_k_left, tok_k_none, tok_k_right, tok_k_squash, tok_k_start, tok_s_a, tok_s_b, tok_s_c, tok_s_d, tok_s_e, tok_s_ee, tok_s_f, tok_s_h, tok_s_i, tok_s_j, tok_s_o, tok_s_p, tok_s_v, tok_s_w, tok_s_z, tok_w_align, tok_w_bytes, tok_w_characters, tok_w_count, tok_w_delimiter, tok_w_fields, tok_w_help, tok_w_input, tok_w_invert, tok_w_join, tok_w_no_skip_empty, tok_w_no_strict, tok_w_no_strict_bounds, tok_w_no_strict_range_order, tok_w_no_strict_return, tok_w_no_strict_utf8, tok_w_output, tok_w_per_line, tok_w_placeholder, tok_w_skip_empty, tok_w_strict, tok_w_strict_bounds, tok_w_strict_range_order, tok_w_strict_return, tok_w_strict_utf8, tok_w_version, tok_w_whole_string, tok_w_zero_terminated};
use crate::types::{Align, Delimiter, InputMode, JoinMode, SelectionMode};

verus! {

/// Which value-consuming flag is waiting for its argument.
#[derive(Clone, Copy, Debug, PartialEq, Eq, Structural)]
pub struct Consuming {
    pub input: bool,
    pub output: bool,
    pub delim: bool,
    pub join: bool,
    pub placeholder: bool,
    pub align: bool,
}

/// What the flag dispatcher decided for one argument.
#[derive(Clone, Copy, Debug, PartialEq, Eq, Structural)]
pub enum ParseResult {
    /// The argument was a flag (or a consumed value) and was handled.
    FlagParsed,
    /// The argument is no flag; it is a positional argument.
    FlagNotParsed,
    /// The run is complete (help or version was asked for).
    Finished,
}

/// Why the command line was rejected.
#[derive(Clone, Copy, Debug, PartialEq, Eq, Structural)]
pub enum CliError {
    /// A long flag was written with a value but without `=`.
    MalformedFlag,
    /// A positional argument is no valid selection.
    InvalidSelection,
    /// A value-consuming flag came last, with no value after it.
    MissingValue,
    /// Field mode needs a delimiter.
    DelimiterRequired,
    /// The empty string is not a valid delimiter.
    EmptyDelimiter,
    /// Neither engine accepted the delimiter pattern.
    BadPattern,
    /// Alignment is only supported in per-line mode.
    AlignPerLineOnly,
    /// Alignment is only supported in field mode.
    AlignFieldsOnly,
    /// Join keywords are only supported in field mode.
    JoinKeywordFieldsOnly,
    /// A literal join string is not supported in byte mode.
    JoinByteMode,
}

/// The raw command-line values, before compilation and validation.
pub struct CLIArguments {
    pub output: Option<Vec<u8>>,
    pub input: Option<Vec<u8>>,
    pub join: Option<Vec<u8>>,
    pub align: Align,
    pub delimiter: Option<Vec<u8>>,
    pub placeholder: Option<Vec<u8>>,
    pub input_mode: InputMode,
    pub selection_mode: SelectionMode,
    pub count: bool,
    pub invert: bool,
    pub skip_empty: bool,
    pub strict_utf8: bool,
    pub strict_return: bool,
    pub strict_bounds: bool,
    pub strict_range_order: bool,
    pub selections: Vec<(i32, i32)>,
}

/// The ghost image of the raw command-line values.
pub ghost struct CLIArgumentsView {
    pub output: Option<Seq<u8>>,
    pub input: Option<Seq<u8>>,
    pub join: Option<Seq<u8>>,
    pub align: Align,
    pub delimiter: Option<Seq<u8>>,
    pub placeholder: Option<Seq<u8>>,
    pub input_mode: InputMode,
    pub selection_mode: SelectionMode,
    pub count: bool,
    pub invert: bool,
    pub skip_empty: bool,
    pub strict_utf8: bool,
    pub strict_return: bool,
    pub strict_bounds: bool,
    pub strict_range_order: bool,
    pub selections: Seq<(i32, i32)>,
}

impl View for CLIArguments {
    type V = CLIArgumentsView;

    open spec fn view(&self) -> CLIArgumentsView {
        CLIArgumentsView {
            output: match self.output {
                Some(v) => Some(v@),
                None => None,
            },
            input: match self.input {
                Some(v) => Some(v@),
                None => None,
            },
            join: match self.join {
                Some(v) => Some(v@),
                None => None,
            },
            align: self.align,
            delimiter: match self.delimiter {
                Some(v) => Some(v@),
                None => None,
            },
            placeholder: match self.placeholder {
                Some(v) => Some(v@),
                None => None,
            },
            input_mode: self.input_mode,
            selection_mode: self.selection_mode,
            count: self.count,
            invert: self.invert,
            skip_empty: self.skip_empty,
            strict_utf8: self.strict_utf8,
            strict_return: self.strict_return,
            strict_bounds: self.strict_bounds,
            strict_range_order: self.strict_range_order,
            selections: self.selections@,
        }
    }
}

/// Whether two byte vectors hold the same bytes.
pub fn bytes_eq(a: &Vec<u8>, b: &Vec<u8>) -> (r: bool)
    ensures
        r == (a@ == b@),
{
    if a.len() != b.len() {
        proof {
            assert(a@ != b@);
        }
        return false;
    }
    let mut i: usize = 0;
    while i < a.len()
        invariant
            a@.len() == b@.len(),
            i <= a@.len(),
            forall|m: int| 0 <= m < i ==> a@[m] == b@[m],
        decreases a@.len() - i,
    {
        if a[i] != b[i] {
            return false;
        }
        i = i + 1;
    }
    proof {
        assert(a@ =~= b@);
    }
    true
}

/// Whether `a` begins with `prefix`.
pub open spec fn spec_starts_with(a: Seq<u8>, prefix: Seq<u8>) -> bool {
    a.len() >= prefix.len() && a.subrange(0, prefix.len() as int) == prefix
}

/// Decide `spec_starts_with` on concrete vectors.
pub fn bytes_starts_with(a: &Vec<u8>, prefix: &Vec<u8>) -> (r: bool)
    ensures
        r == spec_starts_with(a@, prefix@),
{
    if a.len() < prefix.len() {
        return false;
    }
    let mut i: usize = 0;
    while i < prefix.len()
        invariant
            prefix@.len() <= a@.len(),
            i <= prefix@.len(),
            forall|m: int| 0 <= m < i ==> a@[m] == prefix@[m],
        decreases prefix@.len() - i,
    {
        if a[i] != prefix[i] {
            proof {
                assert(a@.subrange(0, prefix@.len() as int)[i as int] != prefix@[i as int]);
            }
            return false;
        }
        i = i + 1;
    }
    proof {
        assert(a@.subrange(0, prefix@.len() as int) =~= prefix@);
    }
    true
}

/// Copy the bytes of `a` from `from` to the end.
pub fn bytes_tail(a: &Vec<u8>, from: usize) -> (r: Vec<u8>)
    requires
        from <= a@.len(),
    ensures
        r@ == a@.subrange(from as int, a@.len() as int),
{
    crate::process_fields::sub_vec(a, from, a.len())
}

/// ASCII upper-case letters folded to lower case, all else untouched.
pub open spec fn spec_ascii_lower(s: Seq<u8>) -> Seq<u8> {
    s.map(
        |_i: int, b: u8|
            if 65 <= b <= 90 {
                (b + 32) as u8
            } else {
                b
            },
    )
}

/// Fold ASCII upper-case letters to lower case.
pub fn ascii_lower(s: &Vec<u8>) -> (r: Vec<u8>)
    ensures
        r@ == spec_ascii_lower(s@),
{
    let mut out: Vec<u8> = Vec::new();
    let mut i: usize = 0;
    while i < s.len()
        invariant
            i <= s@.len(),
            out@.len() == i,
            forall|m: int| 0 <= m < i ==> out@[m] == spec_ascii_lower(s@)[m],
        decreases s@.len() - i,
    {
        let b = s[i];
        if 65 <= b && b <= 90 {
            out.push(b + 32);
        } else {
            out.push(b);
        }
        i = i + 1;
    }
    proof {
        assert(out@ =~= spec_ascii_lower(s@));
    }
    out
}

/// A value with one level of matching double or single quotes removed.
pub open spec fn spec_trim_quotes(value: Seq<u8>) -> Seq<u8> {
    if value.len() >= 2 && ((value.first() == 34 && value.last() == 34) || (value.first() == 39
        && value.last() == 39)) {
        value.subrange(1, value.len() - 1)
    } else {
        value
    }
}

/// Strip one level of matching double or single quotes from a value.
pub fn trim_quotes(value: &Vec<u8>) -> (r: Vec<u8>)
    ensures
        r@ == spec_trim_quotes(value@),
{
    if value.len() >= 2 {
        let first = value[0];
        let last = value[value.len() - 1];
        if (first == 34 && last == 34) || (first == 39 && last == 39) {
            return crate::process_fields::sub_vec(value, 1, value.len() - 1);
        }
    }
    let mut copy: Vec<u8> = Vec::new();
    copy.extend_from_slice(value.as_slice());
    proof {
        assert(copy@ =~= value@);
    }
    copy
}

/// Whether a quote-trimmed delimiter value is written `/…/`, marking a
/// regular expression.
pub open spec fn spec_is_regex_form(trimmed: Seq<u8>) -> bool {
    trimmed.len() > 1 && trimmed.first() == 47 && trimmed.last() == 47
}

/// Classify a delimiter value: `/…/` (after quote trimming) is a
/// regular expression with the slashes removed; everything else is a
/// literal.
pub fn parse_delimiter_token(value: &Vec<u8>) -> (r: Delimiter)
    ensures
        match r {
            Delimiter::Regex(p) => spec_is_regex_form(spec_trim_quotes(value@)) && p@
                == spec_trim_quotes(value@).subrange(1, spec_trim_quotes(value@).len() - 1),
            Delimiter::Literal(p) => !spec_is_regex_form(spec_trim_quotes(value@)) && p@
                == spec_trim_quotes(value@),
        },
{
    let trimmed = trim_quotes(value);
    if trimmed.len() > 1 && trimmed[0] == 47 && trimmed[trimmed.len() - 1] == 47 {
        let inner = crate::process_fields::sub_vec(&trimmed, 1, trimmed.len() - 1);
        Delimiter::Regex(inner)
    } else {
        Delimiter::Literal(trimmed)
    }
}

/// A byte the regular-expression grammar gives special meaning, which
/// an escape neutralises.
pub open spec fn spec_is_regex_meta(b: u8) -> bool {
    ||| b == 92
    ||| b == 46
    ||| b == 43
    ||| b == 42
    ||| b == 63
    ||| b == 40
    ||| b == 41
    ||| b == 124
    ||| b == 91
    ||| b == 93
    ||| b == 123
    ||| b == 125
    ||| b == 94
    ||| b == 36
    ||| b == 35
    ||| b == 38
    ||| b == 45
    ||| b == 126
}

/// `s` with a backslash put before every special byte, so that the
/// compiled pattern matches `s` literally.
pub open spec fn spec_escape_literal(s: Seq<u8>) -> Seq<u8>
    decreases s.len(),
{
    if s.len() == 0 {
        Seq::empty()
    } else {
        (if spec_is_regex_meta(s.first()) {
            seq![92u8, s.first()]
        } else {
            seq![s.first()]
        }) + spec_escape_literal(s.drop_first())
    }
}

/// One more byte at the back escapes independently of the rest.
proof fn lemma_escape_literal_push(s: Seq<u8>, b: u8)
    ensures
        spec_escape_literal(s.push(b)) == spec_escape_literal(s) + (if spec_is_regex_meta(b) {
            seq![92u8, b]
        } else {
            seq![b]
        }),
    decreases s.len(),
{
    let unit = if spec_is_regex_meta(b) {
        seq![92u8, b]
    } else {
        seq![b]
    };
    if s.len() == 0 {
        assert(s.push(b).first() == b);
        assert(s.push(b).drop_first() =~= s);
        assert(spec_escape_literal(s.push(b)) =~= unit);
        assert(spec_escape_literal(s) + unit =~= unit);
    } else {
        assert(s.push(b).first() == s.first());
        assert(s.push(b).drop_first() =~= s.drop_first().push(b));
        lemma_escape_literal_push(s.drop_first(), b);
        let head = if spec_is_regex_meta(s.first()) {
            seq![92u8, s.first()]
        } else {
            seq![s.first()]
        };
        assert(head + (spec_escape_literal(s.drop_first()) + unit) =~= (head + spec_escape_literal(
            s.drop_first(),
        )) + unit);
    }
}

/// Escape every special byte of a literal delimiter, so that compiling
/// the result matches the literal text and nothing else.
pub fn escape_literal(s: &Vec<u8>) -> (r: Vec<u8>)
    ensures
        r@ == spec_escape_literal(s@),
{
    let mut out: Vec<u8> = Vec::new();
    let mut i: usize = 0;
    proof {
        assert(s@.take(0) =~= Seq::<u8>::empty());
    }
    while i < s.len()
        invariant
            i <= s@.len(),
            out@ == spec_escape_literal(s@.take(i as int)),
        decreases s@.len() - i,
    {
        let b = s[i];
        let meta = b == 92 || b == 46 || b == 43 || b == 42 || b == 63 || b == 40 || b == 41
            || b == 124 || b == 91 || b == 93 || b == 123 || b == 125 || b == 94 || b == 36
            || b == 35 || b == 38 || b == 45 || b == 126;
        if meta {
            out.push(92);
        }
        out.push(b);
        proof {
            assert(s@.take(i + 1) =~= s@.take(i as int).push(s@[i as int]));
            lemma_escape_literal_push(s@.take(i as int), s@[i as int]);
        }
        i = i + 1;
    }
    proof {
        assert(s@.take(s@.len() as int) =~= s@);
    }
    out
}

/// The value of a hex digit, or nothing.
pub open spec fn spec_hex_digit(b: u8) -> Option<u8> {
    if 48 <= b <= 57 {
        Some((b - 48) as u8)
    } else if 97 <= b <= 102 {
        Some((b - 87) as u8)
    } else if 65 <= b <= 70 {
        Some((b - 55) as u8)
    } else {
        None
    }
}

/// The bytes decoded from the hex digit pairs starting at `i`.
pub open spec fn spec_hex_from(digits: Seq<u8>, i: int) -> Seq<u8>
    decreases digits.len() - i,
{
    if i < 0 || i + 2 > digits.len() {
        Seq::empty()
    } else {
        seq![
            ((match spec_hex_digit(digits[i]) {
                Some(h) => h,
                None => 0,
            }) * 16 + (match spec_hex_digit(digits[i + 1]) {
                Some(l) => l,
                None => 0,
            })) as u8,
        ] + spec_hex_from(digits, i + 2)
    }
}

/// Whether every byte is a hex digit.
pub open spec fn spec_all_hex(digits: Seq<u8>) -> bool {
    forall|m: int| 0 <= m < digits.len() ==> (#[trigger] spec_hex_digit(digits[m])) is Some
}

/// What a `0x`/`0X` literal decodes to: the even, non-empty run of hex
/// digits after the prefix as raw bytes, or nothing when the value is
/// not such a literal.
pub open spec fn spec_parse_hex(value: Seq<u8>) -> Option<Seq<u8>> {
    if !(spec_starts_with(value, tok_hex_lower()) || spec_starts_with(value, tok_hex_upper())) {
        None
    } else {
        let digits = value.subrange(2, value.len() as int);
        if digits.len() == 0 || digits.len() % 2 != 0 || !spec_all_hex(digits) {
            None
        } else {
            Some(spec_hex_from(digits, 0))
        }
    }
}

/// Decode a `0x`/`0X` hex literal into raw bytes; anything else is no
/// hex literal.
#[verifier::rlimit(30)]
#[verifier::loop_isolation(false)]
pub fn parse_hex(hex_str: &Vec<u8>) -> (r: Option<Vec<u8>>)
    ensures
        match r {
            Some(v) => spec_parse_hex(hex_str@) == Some(v@),
            None => spec_parse_hex(hex_str@) is None,
        },
{
    proof {
        reveal(tok_hex_lower);
        reveal(tok_hex_upper);
    }
    let lower = lit_hex_lower();
    let upper = lit_hex_upper();
    if !(bytes_starts_with(hex_str, &lower) || bytes_starts_with(hex_str, &upper)) {
        return None;
    }
    let digits = bytes_tail(hex_str, 2);
    if digits.len() == 0 || digits.len() % 2 != 0 {
        return None;
    }
    let mut out: Vec<u8> = Vec::new();
    let mut i: usize = 0;
    proof {
        assert(out@ + spec_hex_from(digits@, 0) =~= spec_hex_from(digits@, 0));
    }
    while i < digits.len() && i + 1 < digits.len()
        invariant
            i <= digits@.len(),
            i % 2 == 0,
            digits@.len() % 2 == 0,
            forall|m: int| 0 <= m < i ==> (#[trigger] spec_hex_digit(digits@[m])) is Some,
            spec_all_hex(digits@) ==> out@ + spec_hex_from(digits@, i as int) == spec_hex_from(
                digits@,
                0,
            ),
        decreases digits@.len() - i,
    {
        let hi = match hex_digit(digits[i]) {
            Some(h) => h,
            None => {
                proof {
                    assert(!spec_all_hex(digits@));
                }
                return None;
            },
        };
        let lo = match hex_digit(digits[i + 1]) {
            Some(l) => l,
            None => {
                proof {
                    assert(!spec_all_hex(digits@));
                }
                return None;
            },
        };
        let ghost pre_out = out@;
        out.push(hi * 16 + lo);
        proof {
            if spec_all_hex(digits@) {
                assert(spec_hex_from(digits@, i as int) == seq![(hi * 16 + lo) as u8]
                    + spec_hex_from(digits@, i + 2));
                assert(pre_out.push((hi * 16 + lo) as u8) + spec_hex_from(digits@, i + 2)
                    =~= pre_out + spec_hex_from(digits@, i as int));
            }
        }
        i = i + 2;
    }
    proof {
        assert(spec_all_hex(digits@));
        assert(spec_hex_from(digits@, i as int) =~= Seq::<u8>::empty());
        assert(out@ + Seq::<u8>::empty() =~= out@);
        assert(digits@ =~= hex_str@.subrange(2, hex_str@.len() as int));
    }
    Some(out)
}

/// The value of one hex digit byte.
fn hex_digit(b: u8) -> (r: Option<u8>)
    ensures
        r == spec_hex_digit(b),
{
    if 48 <= b && b <= 57 {
        Some(b - 48)
    } else if 97 <= b && b <= 102 {
        Some(b - 87)
    } else if 65 <= b && b <= 70 {
        Some(b - 55)
    } else {
        None
    }
}

/// A placeholder value: a hex literal decodes to raw bytes, anything
/// else is taken as literal text bytes.
pub fn parse_placeholder(arg: &Vec<u8>) -> (r: Option<Vec<u8>>)
    ensures
        match r {
            Some(v) => v@ == (match spec_parse_hex(arg@) {
                Some(h) => h,
                None => arg@,
            }),
            None => false,
        },
{
    match parse_hex(arg) {
        Some(decoded) => Some(decoded),
        None => {
            let mut copy: Vec<u8> = Vec::new();
            copy.extend_from_slice(arg.as_slice());
            proof {
                assert(copy@ =~= arg@);
            }
            Some(copy)
        },
    }
}

/// An alignment keyword, compared case-insensitively.
pub open spec fn spec_parse_align(arg: Seq<u8>) -> Option<Align> {
    let lowered = spec_ascii_lower(arg);
    if lowered == tok_k_left() {
        Some(Align::Left)
    } else if lowered == tok_k_right() {
        Some(Align::Right)
    } else if lowered == tok_k_squash() {
        Some(Align::Squash)
    } else if lowered == tok_k_none() {
        Some(Align::NoAlign)
    } else {
        None
    }
}

/// Parse an alignment keyword: `left`, `right`, `squash` or `none`, in
/// any letter case.
pub fn parse_align(arg: &Vec<u8>) -> (r: Option<Align>)
    ensures
        r == spec_parse_align(arg@),
{
    let lowered = ascii_lower(arg);
    if bytes_eq(&lowered, &lit_k_left()) {
        Some(Align::Left)
    } else if bytes_eq(&lowered, &lit_k_right()) {
        Some(Align::Right)
    } else if bytes_eq(&lowered, &lit_k_squash()) {
        Some(Align::Squash)
    } else if bytes_eq(&lowered, &lit_k_none()) {
        Some(Align::NoAlign)
    } else {
        None
    }
}

/// A join value: one of the `@` keywords picks a join mode; anything
/// else is literal bytes, hex-decoded when it is a hex literal.
pub fn parse_join(arg: &Vec<u8>) -> (r: Option<JoinMode>)
    ensures
        match r {
            Some(JoinMode::Auto) => arg@ == tok_j_auto(),
            Some(JoinMode::AfterPrevious) => arg@ == tok_j_after_previous(),
            Some(JoinMode::BeforeNext) => arg@ == tok_j_before_next(),
            Some(JoinMode::First) => arg@ == tok_j_first(),
            Some(JoinMode::Last) => arg@ == tok_j_last(),
            Some(JoinMode::Space) => arg@ == tok_j_space(),
            Some(JoinMode::NoJoin) => arg@ == tok_j_none(),
            Some(JoinMode::String(j)) => arg@ != tok_j_auto() && arg@ != tok_j_after_previous()
                && arg@ != tok_j_before_next() && arg@ != tok_j_first() && arg@ != tok_j_last()
                && arg@ != tok_j_space() && arg@ != tok_j_none() && j@ == (
            match spec_parse_hex(arg@) {
                Some(h) => h,
                None => arg@,
            }),
            None => false,
        },
{
    if bytes_eq(arg, &lit_j_auto()) {
        Some(JoinMode::Auto)
    } else if bytes_eq(arg, &lit_j_after_previous()) {
        Some(JoinMode::AfterPrevious)
    } else if bytes_eq(arg, &lit_j_before_next()) {
        Some(JoinMode::BeforeNext)
    } else if bytes_eq(arg, &lit_j_first()) {
        Some(JoinMode::First)
    } else if bytes_eq(arg, &lit_j_last()) {
        Some(JoinMode::Last)
    } else if bytes_eq(arg, &lit_j_space()) {
        Some(JoinMode::Space)
    } else if bytes_eq(arg, &lit_j_none()) {
        Some(JoinMode::NoJoin)
    } else {
        match parse_hex(arg) {
            Some(decoded) => Some(JoinMode::String(decoded)),
            None => {
                let mut copy: Vec<u8> = Vec::new();
                copy.extend_from_slice(arg.as_slice());
                proof {
                    assert(copy@ =~= arg@);
                }
                Some(JoinMode::String(copy))
            },
        }
    }
}

/// Alignment needs per-line input and field mode.
pub fn validate_align(align: Align, input_mode: InputMode, selection_mode: SelectionMode) -> (r:
    Result<(), CliError>)
    ensures
        match r {
            Ok(()) => align is NoAlign || (input_mode is PerLine && selection_mode is Fields),
            Err(e) => !(align is NoAlign) && (if !(input_mode is PerLine) {
                e == CliError::AlignPerLineOnly
            } else {
                !(selection_mode is Fields) && e == CliError::AlignFieldsOnly
            }),
        },
{
    if let Align::NoAlign = align {
        return Ok(());
    }
    if !(input_mode == InputMode::PerLine) {
        return Err(CliError::AlignPerLineOnly);
    }
    if !(selection_mode == SelectionMode::Fields) {
        return Err(CliError::AlignFieldsOnly);
    }
    Ok(())
}

/// Join keywords (`@…`) need field mode; a literal join string is
/// refused in byte mode.
pub fn validate_join_mode(join_str: &Vec<u8>, selection_mode: SelectionMode) -> (r: Result<
    (),
    CliError,
>)
    ensures
        ({
            let keyword = join_str@.len() > 0 && join_str@.first() == 64;
            match r {
                Ok(()) => (keyword ==> selection_mode is Fields) && (!keyword ==> !(selection_mode
                    is Bytes)),
                Err(e) => (keyword && !(selection_mode is Fields) && e
                    == CliError::JoinKeywordFieldsOnly) || (!keyword && selection_mode is Bytes
                    && e == CliError::JoinByteMode),
            }
        }),
{
    let keyword = join_str.len() > 0 && join_str[0] == 64;
    if keyword && !(selection_mode == SelectionMode::Fields) {
        return Err(CliError::JoinKeywordFieldsOnly);
    }
    if !keyword && selection_mode == SelectionMode::Bytes {
        return Err(CliError::JoinByteMode);
    }
    Ok(())
}

/// Every value-consuming flag must have received its value.
pub fn validate_no_consuming(consuming: Consuming) -> (r: Result<(), CliError>)
    ensures
        match r {
            Ok(()) => !consuming.input && !consuming.output && !consuming.delim && !consuming.join
                && !consuming.placeholder,
            Err(e) => e == CliError::MissingValue && (consuming.input || consuming.output
                || consuming.delim || consuming.join || consuming.placeholder),
        },
{
    if consuming.input || consuming.output || consuming.delim || consuming.join
        || consuming.placeholder {
        return Err(CliError::MissingValue);
    }
    Ok(())
}

/// Whether `b` is an ASCII decimal digit.
pub open spec fn is_digit(b: u8) -> bool {
    48 <= b <= 57
}

/// Whether every byte is an ASCII decimal digit.
pub open spec fn spec_all_digits(s: Seq<u8>) -> bool {
    forall|m: int| 0 <= m < s.len() ==> is_digit(#[trigger] s[m])
}

/// The number the digit string denotes.
pub open spec fn spec_digits_value(s: Seq<u8>) -> int
    decreases s.len(),
{
    if s.len() == 0 {
        0
    } else {
        spec_digits_value(s.drop_last()) * 10 + (s.last() - 48)
    }
}

/// Powers of ten.
pub open spec fn pow10(n: nat) -> int
    decreases n,
{
    if n == 0 {
        1
    } else {
        10 * pow10((n - 1) as nat)
    }
}

/// A digit string's value stays under ten to its length.
proof fn lemma_digits_value_upper(s: Seq<u8>)
    requires
        spec_all_digits(s),
    ensures
        0 <= spec_digits_value(s) < pow10(s.len()),
    decreases s.len(),
{
    if s.len() > 0 {
        assert(spec_all_digits(s.drop_last())) by {
            assert(forall|m: int| 0 <= m < s.len() - 1 ==> s.drop_last()[m] == #[trigger] s[m]);
        }
        lemma_digits_value_upper(s.drop_last());
    }
}

/// A digit string that starts with a non-zero digit reaches ten to one
/// less than its length.
proof fn lemma_digits_value_lower(s: Seq<u8>)
    requires
        spec_all_digits(s),
        s.len() >= 1,
        s[0] >= 49,
    ensures
        spec_digits_value(s) >= pow10((s.len() - 1) as nat),
    decreases s.len(),
{
    if s.len() == 1 {
        assert(s.drop_last() =~= Seq::<u8>::empty());
        assert(spec_digits_value(Seq::<u8>::empty()) == 0);
        assert(spec_digits_value(s) == s[0] - 48);
        assert(pow10(0) == 1);
    } else {
        assert(spec_all_digits(s.drop_last())) by {
            assert(forall|m: int| 0 <= m < s.len() - 1 ==> s.drop_last()[m] == #[trigger] s[m]);
        }
        lemma_digits_value_lower(s.drop_last());
        assert(is_digit(s[s.len() - 1]));
        assert(s.last() >= 48);
        assert(pow10((s.len() - 1) as nat) == 10 * pow10((s.len() - 2) as nat));
        assert(spec_digits_value(s) == spec_digits_value(s.drop_last()) * 10 + (s.last() - 48));
        assert(spec_digits_value(s.drop_last()) * 10 >= pow10((s.len() - 2) as nat) * 10);
    }
}

/// Leading zeroes do not change a digit string's value.
proof fn lemma_digits_value_skip_zero(s: Seq<u8>)
    requires
        s.len() >= 1,
        s[0] == 48,
    ensures
        spec_digits_value(s) == spec_digits_value(s.skip(1)),
    decreases s.len(),
{
    if s.len() == 1 {
        assert(s.skip(1) =~= Seq::<u8>::empty());
        assert(s.drop_last() =~= Seq::<u8>::empty());
    } else {
        lemma_digits_value_skip_zero(s.drop_last());
        assert(s.drop_last()[0] == s[0]);
        assert(s.skip(1).drop_last() =~= s.drop_last().skip(1));
        assert(s.skip(1).last() == s.last());
        assert(spec_digits_value(s) == spec_digits_value(s.drop_last()) * 10 + (s.last() - 48));
        assert(spec_digits_value(s.skip(1)) == spec_digits_value(s.skip(1).drop_last()) * 10 + (
        s.skip(1).last() - 48));
    }
}

/// The integer a signed decimal token denotes, or nothing when the
/// token is not `-?[0-9]+`.
pub open spec fn spec_int_token(s: Seq<u8>) -> Option<int> {
    if s.len() == 0 {
        None
    } else if s[0] == 45 {
        let digits = s.skip(1);
        if digits.len() > 0 && spec_all_digits(digits) {
            Some(-spec_digits_value(digits))
        } else {
            None
        }
    } else {
        if spec_all_digits(s) {
            Some(spec_digits_value(s))
        } else {
            None
        }
    }
}

/// One end of a selection, written on a lowered, trimmed token:
/// `start`/`first` is index 1, `end`/`last` is index -1, and otherwise
/// a signed decimal number that fits a 32-bit integer.
pub open spec fn spec_sel_part(s: Seq<u8>) -> Option<int> {
    if s == tok_k_start() || s == tok_k_first() {
        Some(1)
    } else if s == tok_k_end() || s == tok_k_last() {
        Some(-1)
    } else {
        match spec_int_token(s) {
            Some(v) => if i32::MIN <= v <= i32::MAX {
                Some(v)
            } else {
                None
            },
            None => None,
        }
    }
}

/// Parse a digit run into its value, or nothing when it is too large
/// for a 32-bit magnitude.
#[verifier::loop_isolation(false)]
fn digits_value(s: &Vec<u8>) -> (r: Option<i64>)
    requires
        spec_all_digits(s@),
    ensures
        match r {
            Some(v) => v == spec_digits_value(s@) && 0 <= v <= 0x2_0000_0000i64,
            None => spec_digits_value(s@) > 0x2_0000_0000i64,
        },
{
    let mut z: usize = 0;
    while z < s.len() && s[z] == 48
        invariant
            z <= s@.len(),
            forall|m: int| 0 <= m < z ==> s@[m] == 48,
        decreases s@.len() - z,
    {
        z = z + 1;
    }
    proof {
        lemma_skip_zeros(s@, z as int);
    }
    let ghost significant = s@.skip(z as int);
    proof {
        assert(spec_all_digits(significant)) by {
            assert(forall|m: int| 0 <= m < significant.len() ==> significant[m] == #[trigger] s@[m
                + z]);
        }
    }
    if s.len() - z > 10 {
        proof {
            assert(significant[0] != 48);
            assert(significant[0] >= 49 && significant.len() >= 11);
            lemma_digits_value_lower(significant);
            lemma_pow10_10();
            assert(pow10((significant.len() - 1) as nat) >= pow10(10)) by {
                lemma_pow10_monotone(10, (significant.len() - 1) as nat);
            }
        }
        return None;
    }
    let mut acc: i64 = 0;
    let mut i: usize = z;
    proof {
        assert(s@.subrange(z as int, z as int) =~= Seq::<u8>::empty());
        lemma_digits_value_upper(significant);
        lemma_pow10_10();
    }
    while i < s.len()
        invariant
            z <= i <= s@.len(),
            s@.len() - z <= 10,
            spec_all_digits(s@),
            acc == spec_digits_value(s@.subrange(z as int, i as int)),
            0 <= acc,
            acc < 0x2_540B_E400i64,
        decreases s@.len() - i,
    {
        proof {
            assert(spec_all_digits(s@.subrange(z as int, i + 1))) by {
                assert(forall|m: int|
                    0 <= m < i + 1 - z ==> s@.subrange(z as int, i + 1)[m] == #[trigger] s@[m
                        + z]);
            }
            lemma_digits_value_upper(s@.subrange(z as int, i + 1));
            assert(pow10((i + 1 - z) as nat) <= pow10(10)) by {
                lemma_pow10_monotone((i + 1 - z) as nat, 10);
            }
            assert(s@.subrange(z as int, i + 1).drop_last() =~= s@.subrange(z as int, i as int));
            assert(s@.subrange(z as int, i + 1).last() == s@[i as int]);
        }
        acc = acc * 10 + ((s[i] - 48) as i64);
        i = i + 1;
    }
    proof {
        assert(s@.subrange(z as int, s@.len() as int) =~= significant);
        lemma_skip_zeros(s@, z as int);
    }
    if acc > 0x2_0000_0000i64 {
        return None;
    }
    Some(acc)
}

/// Ten to the tenth is larger than any 32-bit magnitude.
proof fn lemma_pow10_10()
    ensures
        pow10(10) == 10_000_000_000,
{
    assert(pow10(0) == 1);
    assert(pow10(1) == 10);
    assert(pow10(2) == 100);
    assert(pow10(3) == 1000);
    assert(pow10(4) == 10000);
    assert(pow10(5) == 100000);
    assert(pow10(6) == 1000000);
    assert(pow10(7) == 10000000);
    assert(pow10(8) == 100000000);
    assert(pow10(9) == 1000000000);
    assert(pow10(10) == 10000000000);
}

/// Powers of ten grow with the exponent.
proof fn lemma_pow10_monotone(a: nat, b: nat)
    requires
        a <= b,
    ensures
        pow10(a) <= pow10(b),
    decreases b,
{
    if a < b {
        lemma_pow10_monotone(a, (b - 1) as nat);
        assert(pow10(b) == 10 * pow10((b - 1) as nat));
        assert(pow10((b - 1) as nat) >= 1) by {
            lemma_pow10_positive((b - 1) as nat);
        }
    }
}

/// Powers of ten are positive.
proof fn lemma_pow10_positive(n: nat)
    ensures
        pow10(n) >= 1,
    decreases n,
{
    if n > 0 {
        lemma_pow10_positive((n - 1) as nat);
    }
}

/// A run of leading zeroes drops out of the value.
proof fn lemma_skip_zeros(s: Seq<u8>, z: int)
    requires
        0 <= z <= s.len(),
        forall|m: int| 0 <= m < z ==> s[m] == 48,
    ensures
        spec_digits_value(s) == spec_digits_value(s.skip(z)),
    decreases z,
{
    if z > 0 {
        lemma_digits_value_skip_zero(s);
        lemma_skip_zeros(s.skip(1), z - 1);
        assert(s.skip(1).skip(z - 1) =~= s.skip(z));
    } else {
        assert(s.skip(0) =~= s);
    }
}

/// Parse one end of a selection from a lowered, trimmed token.
#[verifier::loop_isolation(false)]
fn sel_part(s: &Vec<u8>) -> (r: Option<i32>)
    ensures
        match r {
            Some(v) => spec_sel_part(s@) == Some(v as int),
            None => spec_sel_part(s@) is None,
        },
{
    if bytes_eq(s, &lit_k_start()) || bytes_eq(s, &lit_k_first()) {
        return Some(1);
    }
    if bytes_eq(s, &lit_k_end()) || bytes_eq(s, &lit_k_last()) {
        return Some(-1);
    }
    if s.len() == 0 {
        return None;
    }
    if s[0] == 45 {
        let digits = bytes_tail(s, 1);
        if digits.len() == 0 {
            return None;
        }
        let mut m: usize = 0;
        while m < digits.len()
            invariant
                m <= digits@.len(),
                forall|t: int| 0 <= t < m ==> is_digit(#[trigger] digits@[t]),
            decreases digits@.len() - m,
        {
            if !(48 <= digits[m] && digits[m] <= 57) {
                proof {
                    assert(!spec_all_digits(digits@));
                }
                return None;
            }
            m = m + 1;
        }
        proof {
            assert(spec_all_digits(digits@));
        }
        match digits_value(&digits) {
            Some(v) => {
                if v <= 0x8000_0000i64 {
                    Some((-v) as i32)
                } else {
                    None
                }
            },
            None => None,
        }
    } else {
        let mut m: usize = 0;
        while m < s.len()
            invariant
                m <= s@.len(),
                forall|t: int| 0 <= t < m ==> is_digit(#[trigger] s@[t]),
            decreases s@.len() - m,
        {
            if !(48 <= s[m] && s[m] <= 57) {
                proof {
                    assert(!spec_all_digits(s@));
                }
                return None;
            }
            m = m + 1;
        }
        proof {
            assert(spec_all_digits(s@));
        }
        match digits_value(s) {
            Some(v) => {
                if v <= 0x7FFF_FFFFi64 {
                    Some(v as i32)
                } else {
                    None
                }
            },
            None => None,
        }
    }
}

/// ASCII whitespace, as far as command-line tokens carry any.
pub open spec fn is_ascii_space(b: u8) -> bool {
    b == 32 || b == 9 || b == 10 || b == 13 || b == 11 || b == 12
}

/// The token with leading and trailing ASCII whitespace removed.
pub open spec fn spec_trim(s: Seq<u8>) -> Seq<u8>
    decreases s.len(),
{
    if s.len() > 0 && is_ascii_space(s.first()) {
        spec_trim(s.skip(1))
    } else if s.len() > 0 && is_ascii_space(s.last()) {
        spec_trim(s.drop_last())
    } else {
        s
    }
}

/// Remove leading and trailing ASCII whitespace.
#[verifier::loop_isolation(false)]
pub fn trim_ascii(s: &Vec<u8>) -> (r: Vec<u8>)
    ensures
        r@ == spec_trim(s@),
{
    let mut a: usize = 0;
    let mut b: usize = s.len();
    proof {
        assert(s@.subrange(0, s@.len() as int) =~= s@);
    }
    while a < b && (s[a] == 32 || s[a] == 9 || s[a] == 10 || s[a] == 13 || s[a] == 11 || s[a]
        == 12)
        invariant
            a <= b <= s@.len(),
            forall|m: int| 0 <= m < a ==> is_ascii_space(#[trigger] s@[m]),
            spec_trim(s@) == spec_trim(s@.subrange(a as int, b as int)),
        decreases b - a,
    {
        proof {
            assert(s@.subrange(a as int, b as int).skip(1) =~= s@.subrange(a + 1, b as int));
        }
        a = a + 1;
    }
    while a < b && (s[b - 1] == 32 || s[b - 1] == 9 || s[b - 1] == 10 || s[b - 1] == 13 || s[b - 1]
        == 11 || s[b - 1] == 12)
        invariant
            a <= b <= s@.len(),
            spec_trim(s@) == spec_trim(s@.subrange(a as int, b as int)),
            a < b ==> !is_ascii_space(s@[a as int]),
        decreases b - a,
    {
        proof {
            assert(s@.subrange(a as int, b as int).drop_last() =~= s@.subrange(a as int, b - 1));
            assert(s@.subrange(a as int, b as int).first() == s@[a as int]);
        }
        b = b - 1;
    }
    proof {
        if a < b {
            assert(s@.subrange(a as int, b as int).first() == s@[a as int]);
            assert(s@.subrange(a as int, b as int).last() == s@[b - 1]);
        } else {
            assert(s@.subrange(a as int, b as int) =~= Seq::<u8>::empty());
        }
        assert(spec_trim(s@.subrange(a as int, b as int)) == s@.subrange(a as int, b as int));
    }
    crate::process_fields::sub_vec(s, a, b)
}

/// The position of the range hyphen: the first `-` at or after the
/// offset that skips a leading sign.
pub open spec fn spec_hyphen_position(s: Seq<u8>, from: int) -> int
    decreases s.len() - from,
{
    if from < 0 || from >= s.len() {
        s.len() as int
    } else if s[from] == 45 {
        from
    } else {
        spec_hyphen_position(s, from + 1)
    }
}

/// A whole selection token: one part, or two parts split at the range
/// hyphen (a leading sign is not a range hyphen), each part a keyword
/// or signed number. Letter case and surrounding whitespace do not
/// matter.
pub open spec fn spec_parse_selection_token(raw: Seq<u8>) -> Option<(int, int)> {
    let t = spec_ascii_lower(spec_trim(raw));
    match spec_sel_part(t) {
        Some(v) => Some((v, v)),
        None => {
            let from: int = if t.len() > 0 && t[0] == 45 {
                1
            } else {
                0
            };
            let h = spec_hyphen_position(t, from);
            if h >= t.len() {
                None
            } else {
                match (spec_sel_part(t.take(h)), spec_sel_part(t.skip(h + 1))) {
                    (Some(a), Some(b)) => Some((a, b)),
                    _ => None,
                }
            }
        },
    }
}

/// Parse one selection token into its raw 1-based (possibly negative)
/// inclusive range.
#[verifier::loop_isolation(false)]
pub fn parse_selection_token(token: &Vec<u8>) -> (r: Option<(i32, i32)>)
    ensures
        match r {
            Some(range) => spec_parse_selection_token(token@) == Some(
                (range.0 as int, range.1 as int),
            ),
            None => spec_parse_selection_token(token@) is None,
        },
{
    let trimmed = trim_ascii(token);
    let t = ascii_lower(&trimmed);
    match sel_part(&t) {
        Some(v) => Some((v, v)),
        None => {
            let from: usize = if t.len() > 0 && t[0] == 45 {
                1
            } else {
                0
            };
            let mut h: usize = from;
            while h < t.len() && t[h] != 45
                invariant
                    from <= h <= t@.len(),
                    forall|m: int| from <= m < h ==> t@[m] != 45,
                decreases t@.len() - h,
            {
                h = h + 1;
            }
            proof {
                lemma_hyphen_position(t@, from as int, h as int);
            }
            if h >= t.len() {
                return None;
            }
            let head = crate::process_fields::sub_vec(&t, 0, h);
            let tail = bytes_tail(&t, h + 1);
            proof {
                assert(head@ =~= t@.take(h as int));
                assert(tail@ =~= t@.skip(h + 1));
            }
            match (sel_part(&head), sel_part(&tail)) {
                (Some(a), Some(b)) => Some((a, b)),
                _ => None,
            }
        },
    }
}

/// A scan that stopped at `h` found the spec's hyphen position.
proof fn lemma_hyphen_position(s: Seq<u8>, from: int, h: int)
    requires
        0 <= from <= h <= s.len(),
        forall|m: int| from <= m < h ==> s[m] != 45,
        h == s.len() || s[h] == 45,
    ensures
        spec_hyphen_position(s, from) == h,
    decreases h - from,
{
    if from < h {
        lemma_hyphen_position(s, from + 1, h);
    }
}

/// What one argument does to the parser's state: the dispatch decision,
/// the updated consuming state, and the updated raw values.
pub open spec fn spec_parse_flags(
    arg: Seq<u8>,
    consuming: Consuming,
    raw: CLIArgumentsView,
) -> Result<(ParseResult, Consuming, CLIArgumentsView), CliError> {
    if consuming.input || consuming.output || consuming.delim || consuming.join
        || consuming.placeholder || (consuming.align && spec_parse_align(arg) is Some) {
        spec_consume_value(arg, consuming, raw)
    } else if consuming.align {
        // an align flag without a recognised value falls back to left
        // alignment and lets the argument speak for itself
        spec_parse_plain_flag(
            arg,
            Consuming { align: false, ..consuming },
            CLIArgumentsView { align: Align::Left, ..raw },
        )
    } else {
        spec_parse_plain_flag(arg, consuming, raw)
    }
}

/// One pending value consumed by the flag that asked for it.
#[verifier::opaque]
pub open spec fn spec_consume_value(
    arg: Seq<u8>,
    consuming: Consuming,
    raw: CLIArgumentsView,
) -> Result<(ParseResult, Consuming, CLIArgumentsView), CliError> {
    if consuming.input {
        Ok(
            (
                ParseResult::FlagParsed,
                Consuming { input: false, ..consuming },
                CLIArgumentsView { input: Some(arg), ..raw },
            ),
        )
    } else if consuming.output {
        Ok(
            (
                ParseResult::FlagParsed,
                Consuming { output: false, ..consuming },
                CLIArgumentsView { output: Some(arg), ..raw },
            ),
        )
    } else if consuming.delim {
        Ok(
            (
                ParseResult::FlagParsed,
                Consuming { delim: false, ..consuming },
                CLIArgumentsView { delimiter: Some(arg), ..raw },
            ),
        )
    } else if consuming.join {
        Ok(
            (
                ParseResult::FlagParsed,
                Consuming { join: false, ..consuming },
                CLIArgumentsView { join: Some(arg), ..raw },
            ),
        )
    } else if consuming.placeholder {
        Ok(
            (
                ParseResult::FlagParsed,
                Consuming { placeholder: false, ..consuming },
                CLIArgumentsView { placeholder: Some(arg), ..raw },
            ),
        )
    } else {
        Ok(
            (
                ParseResult::FlagParsed,
                Consuming { align: false, ..consuming },
                CLIArgumentsView {
                    align: match spec_parse_align(arg) {
                        Some(a) => a,
                        None => raw.align,
                    },
                    ..raw
                },
            ),
        )
    }
}

/// Flag dispatch once no value is being consumed.
#[verifier::opaque]
pub open spec fn spec_parse_plain_flag(
    arg: Seq<u8>,
    consuming: Consuming,
    raw: CLIArgumentsView,
) -> Result<(ParseResult, Consuming, CLIArgumentsView), CliError> {
    let parsed = ParseResult::FlagParsed;
    if spec_starts_with(arg, tok_w_input()) && arg != tok_w_input() {
        if !spec_starts_with(arg, tok_eq_input()) {
            Err(CliError::MalformedFlag)
        } else {
            Ok(
                (
                    parsed,
                    consuming,
                    CLIArgumentsView {
                        input: Some(
                            spec_trim_quotes(arg.subrange(tok_eq_input().len() as int, arg.len() as int)),
                        ),
                        ..raw
                    },
                ),
            )
        }
    } else if spec_starts_with(arg, tok_w_output()) && arg != tok_w_output() {
        if !spec_starts_with(arg, tok_eq_output()) {
            Err(CliError::MalformedFlag)
        } else {
            Ok(
                (
                    parsed,
                    consuming,
                    CLIArgumentsView {
                        output: Some(
                            spec_trim_quotes(
                                arg.subrange(tok_eq_output().len() as int, arg.len() as int),
                            ),
                        ),
                        ..raw
                    },
                ),
            )
        }
    } else if spec_starts_with(arg, tok_w_delimiter()) && arg != tok_w_delimiter() {
        if !spec_starts_with(arg, tok_eq_delimiter()) {
            Err(CliError::MalformedFlag)
        } else {
            Ok(
                (
                    parsed,
                    consuming,
                    CLIArgumentsView {
                        delimiter: Some(
                            spec_trim_quotes(
                                arg.subrange(tok_eq_delimiter().len() as int, arg.len() as int),
                            ),
                        ),
                        ..raw
                    },
                ),
            )
        }
    } else {
        spec_parse_value_flag(arg, consuming, raw)
    }
}

/// Dispatch of the remaining `--flag=value` forms and the attached
/// `-d` form.
#[verifier::opaque]
pub open spec fn spec_parse_value_flag(
    arg: Seq<u8>,
    consuming: Consuming,
    raw: CLIArgumentsView,
) -> Result<(ParseResult, Consuming, CLIArgumentsView), CliError> {
    let parsed = ParseResult::FlagParsed;
    if spec_starts_with(arg, tok_w_join()) && arg != tok_w_join() {
        if !spec_starts_with(arg, tok_eq_join()) {
            Err(CliError::MalformedFlag)
        } else {
            Ok(
                (
                    parsed,
                    consuming,
                    CLIArgumentsView {
                        join: Some(
                            spec_trim_quotes(arg.subrange(tok_eq_join().len() as int, arg.len() as int)),
                        ),
                        ..raw
                    },
                ),
            )
        }
    } else if spec_starts_with(arg, tok_w_placeholder()) && arg != tok_w_placeholder() {
        if !spec_starts_with(arg, tok_eq_placeholder()) {
            Err(CliError::MalformedFlag)
        } else {
            Ok(
                (
                    parsed,
                    consuming,
                    CLIArgumentsView {
                        placeholder: Some(
                            spec_trim_quotes(
                                arg.subrange(tok_eq_placeholder().len() as int, arg.len() as int),
                            ),
                        ),
                        ..raw
                    },
                ),
            )
        }
    } else if spec_starts_with(arg, tok_w_align()) && arg != tok_w_align() {
        if !spec_starts_with(arg, tok_eq_align()) {
            Err(CliError::MalformedFlag)
        } else {
            Ok(
                (
                    parsed,
                    consuming,
                    CLIArgumentsView {
                        align: match spec_parse_align(
                            spec_trim_quotes(
                                arg.subrange(tok_eq_align().len() as int, arg.len() as int),
                            ),
                        ) {
                            Some(a) => a,
                            None => Align::Left,
                        },
                        ..raw
                    },
                ),
            )
        }
    } else if spec_starts_with(arg, tok_dash_d_prefix()) && arg != tok_s_d() {
        Ok(
            (
                parsed,
                consuming,
                CLIArgumentsView {
                    delimiter: Some(
                        spec_trim_quotes(
                            arg.subrange(tok_dash_d_prefix().len() as int, arg.len() as int),
                        ),
                    ),
                    ..raw
                },
            ),
        )
    } else {
        spec_parse_simple_flag(arg, consuming, raw)
    }
}

/// Dispatch of the plain single-token flags: help, version, input and
/// selection modes, and the value-consuming flag markers.
#[verifier::opaque]
pub open spec fn spec_parse_simple_flag(
    arg: Seq<u8>,
    consuming: Consuming,
    raw: CLIArgumentsView,
) -> Result<(ParseResult, Consuming, CLIArgumentsView), CliError> {
    let parsed = ParseResult::FlagParsed;
    if arg == tok_s_v() || arg == tok_w_version() || arg == tok_s_h() || arg == tok_w_help() {
        Ok((ParseResult::Finished, consuming, raw))
    } else if arg == tok_w_per_line() {
        Ok((parsed, consuming, CLIArgumentsView { input_mode: InputMode::PerLine, ..raw }))
    } else if arg == tok_w_whole_string() || arg == tok_s_w() {
        Ok((parsed, consuming, CLIArgumentsView { input_mode: InputMode::WholeString, ..raw }))
    } else if arg == tok_w_zero_terminated() || arg == tok_s_z() {
        Ok((parsed, consuming, CLIArgumentsView { input_mode: InputMode::ZeroTerminated, ..raw }))
    } else if arg == tok_w_bytes() || arg == tok_s_b() {
        Ok((parsed, consuming, CLIArgumentsView { selection_mode: SelectionMode::Bytes, ..raw }))
    } else if arg == tok_w_characters() || arg == tok_s_c() {
        Ok((parsed, consuming, CLIArgumentsView { selection_mode: SelectionMode::Chars, ..raw }))
    } else if arg == tok_w_fields() || arg == tok_s_f() {
        Ok((parsed, consuming, CLIArgumentsView { selection_mode: SelectionMode::Fields, ..raw }))
    } else if arg == tok_s_i() || arg == tok_w_input() {
        Ok((parsed, Consuming { input: true, ..consuming }, raw))
    } else if arg == tok_s_o() || arg == tok_w_output() {
        Ok((parsed, Consuming { output: true, ..consuming }, raw))
    } else if arg == tok_s_d() || arg == tok_w_delimiter() {
        Ok((parsed, Consuming { delim: true, ..consuming }, raw))
    } else if arg == tok_s_j() || arg == tok_w_join() {
        Ok((parsed, Consuming { join: true, ..consuming }, raw))
    } else if arg == tok_s_p() || arg == tok_w_placeholder() {
        Ok((parsed, Consuming { placeholder: true, ..consuming }, raw))
    } else if arg == tok_s_a() || arg == tok_w_align() {
        Ok((parsed, Consuming { align: true, ..consuming }, raw))
    } else {
        spec_parse_toggle_flag(arg, consuming, raw)
    }
}

/// Dispatch of the policy toggles: skip-empty, count, invert and the
/// strict family.
#[verifier::opaque]
pub open spec fn spec_parse_toggle_flag(
    arg: Seq<u8>,
    consuming: Consuming,
    raw: CLIArgumentsView,
) -> Result<(ParseResult, Consuming, CLIArgumentsView), CliError> {
    let parsed = ParseResult::FlagParsed;
    if arg == tok_w_skip_empty() || arg == tok_s_e() {
        Ok((parsed, consuming, CLIArgumentsView { skip_empty: true, ..raw }))
    } else if arg == tok_w_no_skip_empty() || arg == tok_s_ee() {
        Ok((parsed, consuming, CLIArgumentsView { skip_empty: false, ..raw }))
    } else if arg == tok_w_count() {
        Ok((parsed, consuming, CLIArgumentsView { count: true, ..raw }))
    } else if arg == tok_w_invert() {
        Ok((parsed, consuming, CLIArgumentsView { invert: true, ..raw }))
    } else if arg == tok_w_strict() {
        Ok(
            (
                parsed,
                consuming,
                CLIArgumentsView {
                    strict_bounds: true,
                    strict_range_order: true,
                    strict_return: true,
                    strict_utf8: true,
                    ..raw
                },
            ),
        )
    } else if arg == tok_w_no_strict() {
        Ok(
            (
                parsed,
                consuming,
                CLIArgumentsView {
                    strict_bounds: false,
                    strict_range_order: false,
                    strict_return: false,
                    strict_utf8: false,
                    ..raw
                },
            ),
        )
    } else if arg == tok_w_strict_bounds() {
        Ok((parsed, consuming, CLIArgumentsView { strict_bounds: true, ..raw }))
    } else if arg == tok_w_no_strict_bounds() {
        Ok((parsed, consuming, CLIArgumentsView { strict_bounds: false, ..raw }))
    } else if arg == tok_w_strict_return() {
        Ok((parsed, consuming, CLIArgumentsView { strict_return: true, ..raw }))
    } else if arg == tok_w_no_strict_return() {
        Ok((parsed, consuming, CLIArgumentsView { strict_return: false, ..raw }))
    } else if arg == tok_w_strict_range_order() {
        Ok((parsed, consuming, CLIArgumentsView { strict_range_order: true, ..raw }))
    } else if arg == tok_w_no_strict_range_order() {
        Ok((parsed, consuming, CLIArgumentsView { strict_range_order: false, ..raw }))
    } else if arg == tok_w_strict_utf8() {
        Ok((parsed, consuming, CLIArgumentsView { strict_utf8: true, ..raw }))
    } else if arg == tok_w_no_strict_utf8() {
        Ok((parsed, consuming, CLIArgumentsView { strict_utf8: false, ..raw }))
    } else {
        Ok((ParseResult::FlagNotParsed, consuming, raw))
    }
}

/// A fresh copy of the bytes.
fn copy_bytes(v: &Vec<u8>) -> (r: Vec<u8>)
    ensures
        r@ == v@,
{
    let mut c: Vec<u8> = Vec::new();
    c.extend_from_slice(v.as_slice());
    proof {
        assert(c@ =~= v@);
    }
    c
}

/// Dispatch one command-line argument: consume a pending value, handle
/// a flag (including `--flag=value` and `-dVALUE` forms), or report the
/// argument as positional. Exactly `spec_parse_flags` on the views.
#[verifier::loop_isolation(false)]
#[verifier::rlimit(100)]
pub fn parse_flags(arg: &Vec<u8>, consuming: &mut Consuming, raw_instructions: &mut CLIArguments)
    -> (r: Result<ParseResult, CliError>)
    ensures
        match r {
            Ok(decision) => spec_parse_flags(arg@, *old(consuming), old(raw_instructions)@) == Ok::<
                (ParseResult, Consuming, CLIArgumentsView),
                CliError,
            >((decision, *final(consuming), final(raw_instructions)@)),
            Err(e) => spec_parse_flags(arg@, *old(consuming), old(raw_instructions)@) == Err::<
                (ParseResult, Consuming, CLIArgumentsView),
                CliError,
            >(e),
        },
{
    let mut align_known = false;
    if consuming.align {
        align_known = parse_align(arg).is_some();
    }
    if consuming.input || consuming.output || consuming.delim || consuming.join
        || consuming.placeholder || (consuming.align && align_known) {
        return consume_value(arg, consuming, raw_instructions);
    }
    if consuming.align {
        raw_instructions.align = Align::Left;
        consuming.align = false;
    }
    parse_plain_flag(arg, consuming, raw_instructions)
}

/// Consume one pending value. Exactly `spec_consume_value` on the
/// views.
#[verifier::rlimit(100)]
fn consume_value(arg: &Vec<u8>, consuming: &mut Consuming, raw_instructions: &mut CLIArguments)
    -> (r: Result<ParseResult, CliError>)
    requires
        old(consuming).input || old(consuming).output || old(consuming).delim || old(
            consuming,
        ).join || old(consuming).placeholder || old(consuming).align,
    ensures
        match r {
            Ok(decision) => spec_consume_value(arg@, *old(consuming), old(raw_instructions)@)
                == Ok::<(ParseResult, Consuming, CLIArgumentsView), CliError>(
                (decision, *final(consuming), final(raw_instructions)@),
            ),
            Err(e) => spec_consume_value(arg@, *old(consuming), old(raw_instructions)@) == Err::<
                (ParseResult, Consuming, CLIArgumentsView),
                CliError,
            >(e),
        },
{
    proof {
        reveal(spec_consume_value);
    }
    if consuming.input {
        raw_instructions.input = Some(copy_bytes(arg));
        consuming.input = false;
        return Ok(ParseResult::FlagParsed);
    }
    if consuming.output {
        raw_instructions.output = Some(copy_bytes(arg));
        consuming.output = false;
        return Ok(ParseResult::FlagParsed);
    }
    if consuming.delim {
        raw_instructions.delimiter = Some(copy_bytes(arg));
        consuming.delim = false;
        return Ok(ParseResult::FlagParsed);
    }
    if consuming.join {
        raw_instructions.join = Some(copy_bytes(arg));
        consuming.join = false;
        return Ok(ParseResult::FlagParsed);
    }
    if consuming.placeholder {
        raw_instructions.placeholder = Some(copy_bytes(arg));
        consuming.placeholder = false;
        return Ok(ParseResult::FlagParsed);
    }
    match parse_align(arg) {
        Some(alignment) => {
            raw_instructions.align = alignment;
        },
        None => {},
    }
    consuming.align = false;
    Ok(ParseResult::FlagParsed)
}

/// Dispatch one argument once no value is being consumed. Exactly
/// `spec_parse_plain_flag` on the views.
#[verifier::loop_isolation(false)]
#[verifier::rlimit(100)]
fn parse_plain_flag(arg: &Vec<u8>, consuming: &mut Consuming, raw_instructions: &mut CLIArguments)
    -> (r: Result<ParseResult, CliError>)
    ensures
        match r {
            Ok(decision) => spec_parse_plain_flag(arg@, *old(consuming), old(raw_instructions)@)
                == Ok::<(ParseResult, Consuming, CLIArgumentsView), CliError>(
                (decision, *final(consuming), final(raw_instructions)@),
            ),
            Err(e) => spec_parse_plain_flag(arg@, *old(consuming), old(raw_instructions)@) == Err::<
                (ParseResult, Consuming, CLIArgumentsView),
                CliError,
            >(e),
        },
{
    proof {
        reveal(spec_parse_plain_flag);
    }
    if bytes_starts_with(arg, &lit_w_input()) && !bytes_eq(arg, &lit_w_input()) {
        let marker = lit_eq_input();
        if !bytes_starts_with(arg, &marker) {
            return Err(CliError::MalformedFlag);
        }
        let value = bytes_tail(arg, marker.len());
        raw_instructions.input = Some(trim_quotes(&value));
        return Ok(ParseResult::FlagParsed);
    }
    if bytes_starts_with(arg, &lit_w_output()) && !bytes_eq(arg, &lit_w_output()) {
        let marker = lit_eq_output();
        if !bytes_starts_with(arg, &marker) {
            return Err(CliError::MalformedFlag);
        }
        let value = bytes_tail(arg, marker.len());
        raw_instructions.output = Some(trim_quotes(&value));
        return Ok(ParseResult::FlagParsed);
    }
    if bytes_starts_with(arg, &lit_w_delimiter()) && !bytes_eq(arg, &lit_w_delimiter()) {
        let marker = lit_eq_delimiter();
        if !bytes_starts_with(arg, &marker) {
            return Err(CliError::MalformedFlag);
        }
        let value = bytes_tail(arg, marker.len());
        raw_instructions.delimiter = Some(trim_quotes(&value));
        return Ok(ParseResult::FlagParsed);
    }
    parse_value_flag(arg, consuming, raw_instructions)
}

/// Dispatch the remaining `--flag=value` forms and the attached `-d`
/// form. Exactly `spec_parse_value_flag` on the views.
#[verifier::loop_isolation(false)]
#[verifier::rlimit(100)]
fn parse_value_flag(arg: &Vec<u8>, consuming: &mut Consuming, raw_instructions: &mut CLIArguments)
    -> (r: Result<ParseResult, CliError>)
    ensures
        match r {
            Ok(decision) => spec_parse_value_flag(arg@, *old(consuming), old(raw_instructions)@)
                == Ok::<(ParseResult, Consuming, CLIArgumentsView), CliError>(
                (decision, *final(consuming), final(raw_instructions)@),
            ),
            Err(e) => spec_parse_value_flag(arg@, *old(consuming), old(raw_instructions)@) == Err::<
                (ParseResult, Consuming, CLIArgumentsView),
                CliError,
            >(e),
        },
{
    proof {
        reveal(spec_parse_value_flag);
    }
    if bytes_starts_with(arg, &lit_w_join()) && !bytes_eq(arg, &lit_w_join()) {
        let marker = lit_eq_join();
        if !bytes_starts_with(arg, &marker) {
            return Err(CliError::MalformedFlag);
        }
        let value = bytes_tail(arg, marker.len());
        raw_instructions.join = Some(trim_quotes(&value));
        return Ok(ParseResult::FlagParsed);
    }
    if bytes_starts_with(arg, &lit_w_placeholder()) && !bytes_eq(arg, &lit_w_placeholder()) {
        let marker = lit_eq_placeholder();
        if !bytes_starts_with(arg, &marker) {
            return Err(CliError::MalformedFlag);
        }
        let value = bytes_tail(arg, marker.len());
        raw_instructions.placeholder = Some(trim_quotes(&value));
        return Ok(ParseResult::FlagParsed);
    }
    if bytes_starts_with(arg, &lit_w_align()) && !bytes_eq(arg, &lit_w_align()) {
        let marker = lit_eq_align();
        if !bytes_starts_with(arg, &marker) {
            return Err(CliError::MalformedFlag);
        }
        let value = bytes_tail(arg, marker.len());
        let trimmed = trim_quotes(&value);
        raw_instructions.align = match parse_align(&trimmed) {
            Some(alignment) => alignment,
            None => Align::Left,
        };
        return Ok(ParseResult::FlagParsed);
    }
    if bytes_starts_with(arg, &lit_dash_d_prefix()) && !bytes_eq(arg, &lit_s_d()) {
        let marker = lit_dash_d_prefix();
        let value = bytes_tail(arg, marker.len());
        raw_instructions.delimiter = Some(trim_quotes(&value));
        return Ok(ParseResult::FlagParsed);
    }

    parse_simple_flag(arg, consuming, raw_instructions)
}

/// Dispatch the plain single-token flags. Exactly
/// `spec_parse_simple_flag` on the views.
#[verifier::loop_isolation(false)]
#[verifier::rlimit(100)]
fn parse_simple_flag(arg: &Vec<u8>, consuming: &mut Consuming, raw_instructions: &mut CLIArguments)
    -> (r: Result<ParseResult, CliError>)
    ensures
        match r {
            Ok(decision) => spec_parse_simple_flag(arg@, *old(consuming), old(raw_instructions)@)
                == Ok::<(ParseResult, Consuming, CLIArgumentsView), CliError>(
                (decision, *final(consuming), final(raw_instructions)@),
            ),
            Err(e) => spec_parse_simple_flag(arg@, *old(consuming), old(raw_instructions)@)
                == Err::<(ParseResult, Consuming, CLIArgumentsView), CliError>(e),
        },
{
    proof {
        reveal(spec_parse_simple_flag);
    }
    if bytes_eq(arg, &lit_s_v()) || bytes_eq(arg, &lit_w_version()) || bytes_eq(arg, &lit_s_h())
        || bytes_eq(arg, &lit_w_help()) {
        return Ok(ParseResult::Finished);
    }
    if bytes_eq(arg, &lit_w_per_line()) {
        raw_instructions.input_mode = InputMode::PerLine;
        return Ok(ParseResult::FlagParsed);
    }
    if bytes_eq(arg, &lit_w_whole_string()) || bytes_eq(arg, &lit_s_w()) {
        raw_instructions.input_mode = InputMode::WholeString;
        return Ok(ParseResult::FlagParsed);
    }
    if bytes_eq(arg, &lit_w_zero_terminated()) || bytes_eq(arg, &lit_s_z()) {
        raw_instructions.input_mode = InputMode::ZeroTerminated;
        return Ok(ParseResult::FlagParsed);
    }
    if bytes_eq(arg, &lit_w_bytes()) || bytes_eq(arg, &lit_s_b()) {
        raw_instructions.selection_mode = SelectionMode::Bytes;
        return Ok(ParseResult::FlagParsed);
    }
    if bytes_eq(arg, &lit_w_characters()) || bytes_eq(arg, &lit_s_c()) {
        raw_instructions.selection_mode = SelectionMode::Chars;
        return Ok(ParseResult::FlagParsed);
    }
    if bytes_eq(arg, &lit_w_fields()) || bytes_eq(arg, &lit_s_f()) {
        raw_instructions.selection_mode = SelectionMode::Fields;
        return Ok(ParseResult::FlagParsed);
    }
    if bytes_eq(arg, &lit_s_i()) || bytes_eq(arg, &lit_w_input()) {
        consuming.input = true;
        return Ok(ParseResult::FlagParsed);
    }
    if bytes_eq(arg, &lit_s_o()) || bytes_eq(arg, &lit_w_output()) {
        consuming.output = true;
        return Ok(ParseResult::FlagParsed);
    }
    if bytes_eq(arg, &lit_s_d()) || bytes_eq(arg, &lit_w_delimiter()) {
        consuming.delim = true;
        return Ok(ParseResult::FlagParsed);
    }
    if bytes_eq(arg, &lit_s_j()) || bytes_eq(arg, &lit_w_join()) {
        consuming.join = true;
        return Ok(ParseResult::FlagParsed);
    }
    if bytes_eq(arg, &lit_s_p()) || bytes_eq(arg, &lit_w_placeholder()) {
        consuming.placeholder = true;
        return Ok(ParseResult::FlagParsed);
    }
    if bytes_eq(arg, &lit_s_a()) || bytes_eq(arg, &lit_w_align()) {
        consuming.align = true;
        return Ok(ParseResult::FlagParsed);
    }
    parse_toggle_flag(arg, consuming, raw_instructions)
}

/// Dispatch the policy toggles. Exactly `spec_parse_toggle_flag` on the
/// views.
#[verifier::loop_isolation(false)]
#[verifier::rlimit(100)]
fn parse_toggle_flag(arg: &Vec<u8>, consuming: &mut Consuming, raw_instructions: &mut CLIArguments)
    -> (r: Result<ParseResult, CliError>)
    ensures
        match r {
            Ok(decision) => spec_parse_toggle_flag(arg@, *old(consuming), old(raw_instructions)@)
                == Ok::<(ParseResult, Consuming, CLIArgumentsView), CliError>(
                (decision, *final(consuming), final(raw_instructions)@),
            ),
            Err(e) => spec_parse_toggle_flag(arg@, *old(consuming), old(raw_instructions)@)
                == Err::<(ParseResult, Consuming, CLIArgumentsView), CliError>(e),
        },
{
    proof {
        reveal(spec_parse_toggle_flag);
    }
    if bytes_eq(arg, &lit_w_skip_empty()) || bytes_eq(arg, &lit_s_e()) {
        raw_instructions.skip_empty = true;
        return Ok(ParseResult::FlagParsed);
    }
    if bytes_eq(arg, &lit_w_no_skip_empty()) || bytes_eq(arg, &lit_s_ee()) {
        raw_instructions.skip_empty = false;
        return Ok(ParseResult::FlagParsed);
    }
    if bytes_eq(arg, &lit_w_count()) {
        raw_instructions.count = true;
        return Ok(ParseResult::FlagParsed);
    }
    if bytes_eq(arg, &lit_w_invert()) {
        raw_instructions.invert = true;
        return Ok(ParseResult::FlagParsed);
    }
    if bytes_eq(arg, &lit_w_strict()) {
        raw_instructions.strict_bounds = true;
        raw_instructions.strict_range_order = true;
        raw_instructions.strict_return = true;
        raw_instructions.strict_utf8 = true;
        return Ok(ParseResult::FlagParsed);
    }
    if bytes_eq(arg, &lit_w_no_strict()) {
        raw_instructions.strict_bounds = false;
        raw_instructions.strict_range_order = false;
        raw_instructions.strict_return = false;
        raw_instructions.strict_utf8 = false;
        return Ok(ParseResult::FlagParsed);
    }
    if bytes_eq(arg, &lit_w_strict_bounds()) {
        raw_instructions.strict_bounds = true;
        return Ok(ParseResult::FlagParsed);
    }
    if bytes_eq(arg, &lit_w_no_strict_bounds()) {
        raw_instructions.strict_bounds = false;
        return Ok(ParseResult::FlagParsed);
    }
    if bytes_eq(arg, &lit_w_strict_return()) {
        raw_instructions.strict_return = true;
        return Ok(ParseResult::FlagParsed);
    }
    if bytes_eq(arg, &lit_w_no_strict_return()) {
        raw_instructions.strict_return = false;
        return Ok(ParseResult::FlagParsed);
    }
    if bytes_eq(arg, &lit_w_strict_range_order()) {
        raw_instructions.strict_range_order = true;
        return Ok(ParseResult::FlagParsed);
    }
    if bytes_eq(arg, &lit_w_no_strict_range_order()) {
        raw_instructions.strict_range_order = false;
        return Ok(ParseResult::FlagParsed);
    }
    if bytes_eq(arg, &lit_w_strict_utf8()) {
        raw_instructions.strict_utf8 = true;
        return Ok(ParseResult::FlagParsed);
    }
    if bytes_eq(arg, &lit_w_no_strict_utf8()) {
        raw_instructions.strict_utf8 = false;
        return Ok(ParseResult::FlagParsed);
    }
    Ok(ParseResult::FlagNotParsed)
}

/// Gather a whole argument list: flags through the dispatcher, and
/// positional arguments as comma-separated selections — except that a
/// first positional argument that holds no selection at all names the
/// delimiter. Returns the gathered values and whether help or version
/// ended the run early. The exact meaning of each flag lives in
/// `spec_parse_flags`, and of each selection token in
/// `spec_parse_selection_token`.
pub fn parse_arguments(args: &Vec<Vec<u8>>) -> (r: Result<(CLIArguments, bool), CliError>)
{
    let mut consuming = Consuming {
        input: false,
        output: false,
        delim: false,
        join: false,
        placeholder: false,
        align: false,
    };
    let mut raw = CLIArguments {
        output: None,
        input: None,
        join: None,
        align: Align::NoAlign,
        delimiter: None,
        placeholder: None,
        input_mode: InputMode::PerLine,
        selection_mode: SelectionMode::Fields,
        count: false,
        invert: false,
        skip_empty: false,
        strict_utf8: false,
        strict_return: false,
        strict_bounds: false,
        strict_range_order: true,
        selections: Vec::new(),
    };
    let mut positionals: Vec<Vec<u8>> = Vec::new();
    let mut n: usize = 0;
    while n < args.len()
        decreases args.len() - n,
    {
        let arg = &args[n];
        n = n + 1;
        match parse_flags(arg, &mut consuming, &mut raw) {
            Ok(ParseResult::FlagParsed) => {},
            Ok(ParseResult::Finished) => {
                return Ok((raw, true));
            },
            Ok(ParseResult::FlagNotParsed) => {
                positionals.push(copy_bytes(arg));
            },
            Err(e) => {
                return Err(e);
            },
        }
    }
    match validate_no_consuming(consuming) {
        Ok(()) => {},
        Err(e) => {
            return Err(e);
        },
    }

    let mut p: usize = 0;
    while p < positionals.len()
        decreases positionals.len() - p,
    {
        let positional = &positionals[p];
        let first = p == 0;
        p = p + 1;
        let parts = split_commas(positional);
        if first && matches!(raw.delimiter, Option::None) {
            let trimmed = trim_ascii(positional);
            let mut lone_comma = trimmed.len() == 1;
            if lone_comma {
                lone_comma = trimmed[0] == 44;
            }
            let mut has_selection = false;
            let mut q: usize = 0;
            while q < parts.len()
                decreases parts.len() - q,
            {
                let part = trim_ascii(&parts[q]);
                q = q + 1;
                if part.len() > 0 {
                    if parse_selection_token(&part).is_some() {
                        has_selection = true;
                    }
                }
            }
            if lone_comma || !has_selection {
                raw.delimiter = Some(copy_bytes(positional));
                continue ;
            }
        }
        let mut q: usize = 0;
        while q < parts.len()
            decreases parts.len() - q,
        {
            let part = trim_ascii(&parts[q]);
            q = q + 1;
            if part.len() == 0 {
                continue ;
            }
            match parse_selection_token(&part) {
                Some(range) => {
                    raw.selections.push(range);
                },
                None => {
                    return Err(CliError::InvalidSelection);
                },
            }
        }
    }
    Ok((raw, false))
}

/// Split a byte string at commas; the commas themselves are dropped.
fn split_commas(s: &Vec<u8>) -> (r: Vec<Vec<u8>>)
{
    let mut parts: Vec<Vec<u8>> = Vec::new();
    let mut current: Vec<u8> = Vec::new();
    let mut i: usize = 0;
    while i < s.len()
        decreases s.len() - i,
    {
        if s[i] == 44 {
            parts.push(current);
            current = Vec::new();
        } else {
            current.push(s[i]);
        }
        i = i + 1;
    }
    parts.push(current);
    parts
}

/// Compile the gathered values into the immutable instruction bundle:
/// validate join and alignment, decode placeholder and join values, and
/// compile the delimiter with the plain engine, falling back to the
/// backtracking one. Field mode without a usable delimiter is an error.
pub fn build_instructions(arguments: CLIArguments) -> (r: Result<
    crate::types::Instructions,
    CliError,
>)
    ensures
        match r {
            Ok(instructions) => {
                &&& instructions.input_mode == arguments.input_mode
                &&& instructions.selection_mode == arguments.selection_mode
                &&& instructions.selections@ == arguments.selections@
                &&& instructions.invert == arguments.invert
                &&& instructions.skip_empty == arguments.skip_empty
                &&& instructions.strict_return == arguments.strict_return
                &&& instructions.strict_bounds == arguments.strict_bounds
                &&& instructions.strict_range_order == arguments.strict_range_order
                &&& instructions.strict_utf8 == arguments.strict_utf8
                &&& instructions.count == arguments.count
                &&& instructions.align == arguments.align
                &&& (instructions.align is NoAlign || (instructions.input_mode is PerLine
                    && instructions.selection_mode is Fields))
                &&& (instructions.selection_mode is Fields ==> instructions.regex_engine is Some)
            },
            Err(_) => true,
        },
{
    match &arguments.join {
        Some(join_value) => match validate_join_mode(join_value, arguments.selection_mode) {
            Ok(()) => {},
            Err(e) => {
                return Err(e);
            },
        },
        None => {},
    }
    let join: Option<crate::types::JoinMode> = match &arguments.join {
        Some(join_value) => parse_join(join_value),
        None => None,
    };
    let placeholder: Option<Vec<u8>> = match &arguments.placeholder {
        Some(placeholder_value) => parse_placeholder(placeholder_value),
        None => None,
    };
    match validate_align(arguments.align, arguments.input_mode, arguments.selection_mode) {
        Ok(()) => {},
        Err(e) => {
            return Err(e);
        },
    }
    let regex_engine: Option<crate::types::RegexEngine> = match arguments.selection_mode {
        SelectionMode::Fields => {
            let pattern = match &arguments.delimiter {
                Some(d) => d,
                None => {
                    return Err(CliError::DelimiterRequired);
                },
            };
            if pattern.len() == 0 {
                return Err(CliError::EmptyDelimiter);
            }
            let compiled_pattern: Vec<u8> = match parse_delimiter_token(pattern) {
                Delimiter::Regex(inner) => inner,
                Delimiter::Literal(literal) => escape_literal(&literal),
            };
            match crate::matcher::compile_simple(&compiled_pattern) {
                Some(engine) => Some(crate::types::RegexEngine::Simple(engine)),
                None => match crate::matcher::compile_fancy(&compiled_pattern) {
                    Some(engine) => Some(crate::types::RegexEngine::Fancy(engine)),
                    None => {
                        return Err(CliError::BadPattern);
                    },
                },
            }
        },
        _ => None,
    };
    Ok(
        crate::types::Instructions {
            input_mode: arguments.input_mode,
            selection_mode: arguments.selection_mode,
            selections: arguments.selections,
            invert: arguments.invert,
            skip_empty: arguments.skip_empty,
            placeholder,
            strict_return: arguments.strict_return,
            strict_bounds: arguments.strict_bounds,
            strict_range_order: arguments.strict_range_order,
            strict_utf8: arguments.strict_utf8,
            count: arguments.count,
            join,
            regex_engine,
            align: arguments.align,
        },
    )
}

} // verus!
