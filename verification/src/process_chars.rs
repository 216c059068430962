//! Character mode: the record's units are its extended grapheme
//! clusters, after UTF-8 decoding (strict or lossy). A literal join
//! string, when one is set, stands between consecutive positions.

use vstd::prelude::*;
use crate::compose::{decimal_bytes, ranges_indices, spec_decimal, spec_finish_content,
    spec_joined, spec_units_content};
use crate::selection::{inverted_of, invert_selections, normalise_selections,
    spec_normalise_selections, SplitError};
use crate::types::{Instructions, JoinMode, Record};
use crate::unicode::{check_utf8, decode_lossy, graphemes_of, lossy_decoded, split_graphemes,
    utf8_valid};

verus! {

/// The record's text after decoding: unchanged when valid, lossily
/// decoded otherwise.
pub open spec fn spec_decoded_text(bytes: Seq<u8>) -> Seq<u8> {
    if utf8_valid(bytes) {
        bytes
    } else {
        lossy_decoded(bytes)
    }
}

/// The literal separator bytes a join policy puts between character
/// units: only an explicit join string contributes any.
pub open spec fn spec_char_separator(join: Option<JoinMode>) -> Seq<u8> {
    match join {
        Some(JoinMode::String(j)) => j@,
        _ => Seq::empty(),
    }
}

/// Decode the record's bytes: an error under strict UTF-8 checking when
/// they are not valid UTF-8, the lossy decoding otherwise.
pub fn bytes_to_cow_string(bytes: &Vec<u8>, strict_utf8: bool) -> (r: Result<Vec<u8>, SplitError>)
    ensures
        match r {
            Ok(text) => {
                &&& !(strict_utf8 && !utf8_valid(bytes@))
                &&& text@ == spec_decoded_text(bytes@)
                &&& utf8_valid(text@)
                &&& bytes@.len() == 0 ==> text@.len() == 0
            },
            Err(e) => strict_utf8 && !utf8_valid(bytes@) && e == SplitError::Utf8,
        },
{
    if check_utf8(bytes) {
        let mut copy: Vec<u8> = Vec::new();
        copy.extend_from_slice(bytes.as_slice());
        proof {
            assert(copy@ =~= bytes@);
        }
        Ok(copy)
    } else if strict_utf8 {
        Err(SplitError::Utf8)
    } else {
        Ok(decode_lossy(bytes))
    }
}

/// The result of character mode on every input whose selections are not
/// inverted — `None` marks the inverted paths, whose exact range list
/// `process_chars` states separately.
pub open spec fn spec_process_chars(
    bytes: Seq<u8>,
    selections: Seq<(i32, i32)>,
    invert: bool,
    placeholder: Option<Seq<u8>>,
    join: Option<JoinMode>,
    count: bool,
    strict_return: bool,
    strict_bounds: bool,
    strict_range_order: bool,
    strict_utf8: bool,
) -> Option<Result<Seq<u8>, SplitError>> {
    if strict_utf8 && !utf8_valid(bytes) {
        Some(Err(SplitError::Utf8))
    } else {
        let units = graphemes_of(spec_decoded_text(bytes));
        let separator = spec_char_separator(join);
        if count {
            Some(Ok(spec_decimal(units.len())))
        } else if units.len() == 0 {
            if strict_return {
                Some(Err(SplitError::EmptyResult))
            } else if strict_bounds && selections.len() > 0 {
                Some(Err(SplitError::EmptyBounds))
            } else {
                Some(Ok(Seq::empty()))
            }
        } else if selections.len() == 0 {
            if invert {
                Some(spec_finish_content(Seq::empty(), false, strict_return))
            } else {
                Some(
                    spec_finish_content(
                        spec_joined(
                            units,
                            placeholder,
                            separator,
                            ranges_indices(seq![(0usize, (units.len() - 1) as usize)]),
                        ),
                        spec_units_content(
                            units,
                            ranges_indices(seq![(0usize, (units.len() - 1) as usize)]),
                        ),
                        strict_return,
                    ),
                )
            }
        } else {
            match spec_normalise_selections(
                selections,
                units.len() as usize,
                placeholder is Some,
                strict_bounds,
                strict_range_order,
            ) {
                Err(e) => Some(Err(e)),
                Ok(kept) => if !invert {
                    Some(
                        spec_finish_content(
                            spec_joined(units, placeholder, separator, ranges_indices(kept)),
                            spec_units_content(units, ranges_indices(kept)),
                            strict_return,
                        ),
                    )
                } else {
                    None
                },
            }
        }
    }
}

/// What character mode returns for a record's bytes: exact on every
/// non-inverted path, and on inverted paths exact over some range list
/// that inverts the normalised selections.
pub open spec fn chars_result_holds(
    instructions: Instructions,
    bytes: Seq<u8>,
    r: Result<Seq<u8>, SplitError>,
) -> bool {
    match spec_process_chars(
        bytes,
        instructions.selections@,
        instructions.invert,
        instructions.placeholder.deep_view(),
        instructions.join,
        instructions.count,
        instructions.strict_return,
        instructions.strict_bounds,
        instructions.strict_range_order,
        instructions.strict_utf8,
    ) {
        Some(expected) => r == expected,
        None => exists|inv: Seq<(usize, usize)>|
            {
                &&& #[trigger] inverted_of(
                    inv,
                    spec_normalise_selections(
                        instructions.selections@,
                        graphemes_of(spec_decoded_text(bytes)).len() as usize,
                        instructions.placeholder.deep_view() is Some,
                        instructions.strict_bounds,
                        instructions.strict_range_order,
                    )->Ok_0,
                    graphemes_of(spec_decoded_text(bytes)).len() as usize,
                )
                &&& r == spec_finish_content(
                    spec_joined(
                        graphemes_of(spec_decoded_text(bytes)),
                        instructions.placeholder.deep_view(),
                        spec_char_separator(instructions.join),
                        ranges_indices(inv),
                    ),
                    spec_units_content(
                        graphemes_of(spec_decoded_text(bytes)),
                        ranges_indices(inv),
                    ),
                    instructions.strict_return,
                )
            },
    }
}

/// Process one record in character mode. The bytes are decoded (strictly
/// or lossily) and segmented into grapheme clusters; in count mode the
/// output is the decimal cluster count; otherwise the normalised (and,
/// on request, inverted) ranges are emitted with the join string between
/// consecutive positions. Under strict return checking a record is an
/// error when no position fell on a real cluster — placeholder
/// substitutions are not real content.
#[verifier::rlimit(100)]
pub fn process_chars(instructions: &Instructions, record: Record) -> (r: Result<
    Vec<u8>,
    SplitError,
>)
    ensures
        chars_result_holds(
            *instructions,
            record.bytes@,
            crate::process_fields::res_view(r),
        ),
{
    let text = match bytes_to_cow_string(&record.bytes, instructions.strict_utf8) {
        Ok(t) => t,
        Err(e) => { return Err(e); },
    };

    let graphemes = split_graphemes(&text);
    let grapheme_count = graphemes.len();

    let separator: Vec<u8> = match &instructions.join {
        Some(JoinMode::String(j)) => {
            let mut s: Vec<u8> = Vec::new();
            s.extend_from_slice(j.as_slice());
            proof {
                assert(s@ =~= j@);
            }
            s
        },
        _ => Vec::new(),
    };

    if instructions.count {
        return Ok(decimal_bytes(grapheme_count));
    }

    if grapheme_count == 0 {
        if instructions.strict_return {
            return Err(SplitError::EmptyResult);
        }
        if instructions.strict_bounds && instructions.selections.len() > 0 {
            return Err(SplitError::EmptyBounds);
        }
        return Ok(Vec::new());
    }

    if instructions.selections.len() == 0 {
        if instructions.invert {
            if instructions.strict_return {
                return Err(SplitError::EmptyResult);
            }
            return Ok(Vec::new());
        }
        let mut whole: Vec<(usize, usize)> = Vec::new();
        whole.push((0, grapheme_count - 1));
        proof {
            assert(whole@ =~= seq![(0usize, (grapheme_count - 1) as usize)]);
        }
        let (out, has_content) = crate::compose::emit_joined(
            &graphemes,
            &instructions.placeholder,
            &separator,
            &whole,
        );
        if instructions.strict_return && !has_content {
            return Err(SplitError::EmptyResult);
        }
        return Ok(out);
    }

    let kept = match normalise_selections(
        &instructions.selections,
        grapheme_count,
        instructions.placeholder.is_some(),
        instructions.strict_bounds,
        instructions.strict_range_order,
    ) {
        Ok(v) => v,
        Err(e) => { return Err(e); },
    };

    proof {
        crate::selection::lemma_normalise_ok_length(
            instructions.selections@,
            grapheme_count,
            instructions.placeholder.deep_view() is Some,
            instructions.strict_bounds,
            instructions.strict_range_order,
        );
    }
    let ghost gkept = kept@;
    let ranges = if instructions.invert {
        invert_selections(kept, grapheme_count)
    } else {
        kept
    };
    proof {
        assert forall|k: int| 0 <= k < ranges@.len() implies (#[trigger] ranges@[k]).0
            <= ranges@[k].1 < usize::MAX by {
            if instructions.invert {
                assert(ranges@.contains(ranges@[k]));
                let x = ranges@[k];
                if !(x.1 < grapheme_count) {
                    let y = choose|y: (usize, usize)| #[trigger] gkept.contains(y) && x.1 <= y.1;
                    let m = choose|m: int| 0 <= m < gkept.len() && gkept[m] == y;
                }
            }
        }
    }

    let (out, has_content) = crate::compose::emit_joined(
        &graphemes,
        &instructions.placeholder,
        &separator,
        &ranges,
    );
    if instructions.strict_return && !has_content {
        Err(SplitError::EmptyResult)
    } else {
        Ok(out)
    }
}

} // verus!
