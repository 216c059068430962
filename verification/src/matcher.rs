//! The delimiter matcher, taken from outside: compiled regular
//! expressions of the plain and the backtracking engine, and the ordered,
//! non-overlapping delimiter spans they yield over a record's text.

use vstd::prelude::*;

verus! {

#[verifier::external_type_specification]
#[verifier::external_body]
pub struct ExRegex(regex::Regex);

#[verifier::external_type_specification]
#[verifier::external_body]
pub struct ExFancyRegex(fancy_regex::Regex);

#[verifier::external_type_specification]
#[verifier::external_body]
pub struct ExFancyError(fancy_regex::Error);

/// Byte spans in ascending order, none overlapping the next, all inside a
/// text of length `len`, each with its start at or before its end.
pub open spec fn spans_wf(spans: Seq<(usize, usize)>, len: nat) -> bool {
    &&& forall|k: int| 0 <= k < spans.len() ==> (#[trigger] spans[k]).0 <= spans[k].1 <= len
    &&& forall|k: int| 0 < k < spans.len() ==> (#[trigger] spans[k - 1]).1 <= spans[k].0
}

/// Relies on `regex::Regex::new`: a compiled matcher for the pattern
/// bytes, or nothing when they are not UTF-8 or the plain engine
/// refuses the pattern.
#[verifier::external_body]
pub fn compile_simple(pattern: &Vec<u8>) -> Option<regex::Regex> {
    match core::str::from_utf8(pattern) {
        Ok(s) => regex::Regex::new(s).ok(),
        Err(_) => None,
    }
}

/// Relies on `fancy_regex::Regex::new`: a compiled matcher for the
/// pattern bytes, or nothing when they are not UTF-8 or the
/// backtracking engine refuses the pattern too.
#[verifier::external_body]
pub fn compile_fancy(pattern: &Vec<u8>) -> Option<fancy_regex::Regex> {
    match core::str::from_utf8(pattern) {
        Ok(s) => fancy_regex::Regex::new(s).ok(),
        Err(_) => None,
    }
}

/// Relies on `regex::Regex::find_iter`: successive non-overlapping
/// matches, each a byte span inside the text with start at or before end.
#[verifier::external_body]
pub fn find_spans_simple(engine: &regex::Regex, text: &Vec<u8>) -> (r: Vec<(usize, usize)>)
    requires
        crate::unicode::utf8_valid(text@),
    ensures
        spans_wf(r@, text@.len()),
{
    let s = core::str::from_utf8(text).unwrap();
    engine.find_iter(s).map(|m| (m.start(), m.end())).collect()
}

/// Relies on `fancy_regex::Regex::find_iter`: successive non-overlapping
/// matches as byte spans inside the text, or the error on which the
/// backtracking engine gave up mid-scan.
#[verifier::external_body]
pub fn find_spans_fancy(engine: &fancy_regex::Regex, text: &Vec<u8>) -> (r: Result<
    Vec<(usize, usize)>,
    fancy_regex::Error,
>)
    requires
        crate::unicode::utf8_valid(text@),
    ensures
        match r {
            Ok(spans) => spans_wf(spans@, text@.len()),
            Err(_) => true,
        },
{
    let s = core::str::from_utf8(text).unwrap();
    let mut spans: Vec<(usize, usize)> = Vec::new();
    for item in engine.find_iter(s) {
        match item {
            Ok(m) => spans.push((m.start(), m.end())),
            Err(e) => {
                return Err(e);
            },
        }
    }
    Ok(spans)
}

} // verus!
