//! Byte mode: the record's units are its raw bytes. Selected positions
//! are copied out in order; out-of-range positions contribute the
//! placeholder when one is set.

use vstd::prelude::*;
use crate::compose::{decimal_bytes, lemma_emit_range_snoc, lemma_emit_ranges_snoc,
    lemma_units_content_push, ranges_indices, spec_decimal, spec_emit_range, spec_emit_ranges,
    spec_finish_content, spec_unit_at, spec_units_content};
use crate::selection::{inverted_of, invert_selections, normalise_selections,
    spec_normalise_selections, SplitError};
use crate::types::Instructions;
use crate::types::Record;

verus! {

/// Each byte of the record as a one-byte unit.
pub open spec fn byte_units(bytes: Seq<u8>) -> Seq<Seq<u8>> {
    Seq::new(bytes.len(), |i: int| seq![bytes[i]])
}

/// The result of byte mode on every input whose selections are not
/// inverted — `None` marks the inverted paths, whose exact range list
/// `process_bytes` states separately.
pub open spec fn spec_process_bytes(
    bytes: Seq<u8>,
    selections: Seq<(i32, i32)>,
    invert: bool,
    placeholder: Option<Seq<u8>>,
    count: bool,
    strict_return: bool,
    strict_bounds: bool,
    strict_range_order: bool,
) -> Option<Result<Seq<u8>, SplitError>> {
    if count {
        Some(Ok(spec_decimal(bytes.len())))
    } else if bytes.len() == 0 {
        if strict_return {
            Some(Err(SplitError::EmptyResult))
        } else if strict_bounds && selections.len() > 0 {
            Some(Err(SplitError::EmptyBounds))
        } else {
            Some(Ok(Seq::empty()))
        }
    } else if selections.len() == 0 {
        if invert {
            Some(spec_finish_content(Seq::empty(), false, strict_return))
        } else {
            Some(Ok(bytes))
        }
    } else {
        match spec_normalise_selections(
            selections,
            bytes.len() as usize,
            placeholder is Some,
            strict_bounds,
            strict_range_order,
        ) {
            Err(e) => Some(Err(e)),
            Ok(kept) => if !invert {
                Some(
                    spec_finish_content(
                        spec_emit_ranges(byte_units(bytes), placeholder, kept),
                        spec_units_content(byte_units(bytes), ranges_indices(kept)),
                        strict_return,
                    ),
                )
            } else {
                None
            },
        }
    }
}

/// Emit the record's bytes over the resolved ranges, substituting the
/// placeholder for out-of-range positions. Also reports whether any
/// position fell on a real byte of the record (placeholder
/// substitutions are not real content) for strict-return evaluation.
fn emit_byte_ranges(
    bytes: &Vec<u8>,
    placeholder: &Option<Vec<u8>>,
    ranges: &Vec<(usize, usize)>,
) -> (res: (Vec<u8>, bool))
    requires
        forall|k: int| 0 <= k < ranges@.len() ==> (#[trigger] ranges@[k]).0 <= ranges@[k].1
            < usize::MAX,
    ensures
        res.0@ == spec_emit_ranges(byte_units(bytes@), placeholder.deep_view(), ranges@),
        res.1 == spec_units_content(byte_units(bytes@), ranges_indices(ranges@)),
{
    let ghost gunits = byte_units(bytes@);
    let ghost gplaceholder = placeholder.deep_view();
    let mut out: Vec<u8> = Vec::new();
    let mut content = false;
    let ghost mut done: Seq<int> = Seq::empty();
    let mut k: usize = 0;
    while k < ranges.len()
        invariant
            k <= ranges.len(),
            forall|k2: int| 0 <= k2 < ranges@.len() ==> (#[trigger] ranges@[k2]).0 <= ranges@[k2].1
                < usize::MAX,
            gunits == byte_units(bytes@),
            gplaceholder == placeholder.deep_view(),
            done == ranges_indices(ranges@.take(k as int)),
            content == spec_units_content(gunits, done),
            out@ == spec_emit_ranges(gunits, gplaceholder, ranges@.take(k as int)),
        decreases ranges.len() - k,
    {
        let (s, e) = ranges[k];
        let ghost base = out@;
        let ghost base_done = done;
        let mut i: usize = s;
        proof {
            assert(base + spec_emit_range(gunits, gplaceholder, s as int, s - 1) =~= base);
            assert(base_done + crate::compose::range_indices(s as int, s - 1) =~= base_done);
        }
        while i <= e
            invariant
                s <= i <= e + 1,
                e < usize::MAX,
                gunits == byte_units(bytes@),
                gplaceholder == placeholder.deep_view(),
                done == base_done + crate::compose::range_indices(s as int, i - 1),
                content == spec_units_content(gunits, done),
                out@ == base + spec_emit_range(gunits, gplaceholder, s as int, i - 1),
            decreases e + 1 - i,
        {
            let ghost pre_done = done;
            if i < bytes.len() {
                out.push(bytes[i]);
                content = true;
                proof {
                    assert(spec_unit_at(gunits, i as int, gplaceholder) =~= seq![bytes@[i as int]]);
                    assert(gunits[i as int].len() > 0);
                }
            } else {
                match placeholder {
                    Some(p) => {
                        out.extend_from_slice(p.as_slice());
                        proof {
                            assert(spec_unit_at(gunits, i as int, gplaceholder) == p@);
                        }
                    },
                    None => {
                        proof {
                            assert(spec_unit_at(gunits, i as int, gplaceholder) =~= Seq::<
                                u8,
                            >::empty());
                        }
                    },
                }
            }
            proof {
                done = pre_done.push(i as int);
                lemma_units_content_push(gunits, pre_done, i as int);
                crate::compose::lemma_range_indices_snoc(s as int, i as int);
                assert(base_done + crate::compose::range_indices(s as int, i - 1 + 1) =~= (base_done
                    + crate::compose::range_indices(s as int, i - 1)).push(i as int));
                lemma_emit_range_snoc(gunits, gplaceholder, s as int, i as int);
                assert(out@ =~= base + spec_emit_range(gunits, gplaceholder, s as int, i as int));
            }
            i = i + 1;
        }
        proof {
            assert(ranges@.take(k + 1) =~= ranges@.take(k as int).push(ranges@[k as int]));
            lemma_emit_ranges_snoc(gunits, gplaceholder, ranges@.take(k as int), ranges@[k as int]);
            crate::compose::lemma_ranges_indices_snoc(ranges@.take(k as int), ranges@[k as int]);
            assert(done =~= ranges_indices(ranges@.take(k + 1)));
        }
        k = k + 1;
    }
    proof {
        assert(ranges@.take(ranges@.len() as int) =~= ranges@);
    }
    (out, content)
}

/// What byte mode returns for a record's bytes: exact on every
/// non-inverted path, and on inverted paths exact over some range list
/// that inverts the normalised selections.
pub open spec fn bytes_result_holds(
    instructions: Instructions,
    bytes: Seq<u8>,
    r: Result<Seq<u8>, SplitError>,
) -> bool {
    match spec_process_bytes(
        bytes,
        instructions.selections@,
        instructions.invert,
        instructions.placeholder.deep_view(),
        instructions.count,
        instructions.strict_return,
        instructions.strict_bounds,
        instructions.strict_range_order,
    ) {
        Some(expected) => r == expected,
        None => exists|inv: Seq<(usize, usize)>|
            {
                &&& #[trigger] inverted_of(
                    inv,
                    spec_normalise_selections(
                        instructions.selections@,
                        bytes.len() as usize,
                        instructions.placeholder.deep_view() is Some,
                        instructions.strict_bounds,
                        instructions.strict_range_order,
                    )->Ok_0,
                    bytes.len() as usize,
                )
                &&& r == spec_finish_content(
                    spec_emit_ranges(byte_units(bytes), instructions.placeholder.deep_view(), inv),
                    spec_units_content(byte_units(bytes), ranges_indices(inv)),
                    instructions.strict_return,
                )
            },
    }
}

/// Process one record in byte mode. In count mode the output is the
/// decimal byte count. Otherwise the normalised (and, on request,
/// inverted) ranges are emitted byte by byte; under strict return
/// checking a record is an error when no position fell on a real byte —
/// placeholder substitutions are not real content.
pub fn process_bytes(instructions: &Instructions, record: Record) -> (r: Result<
    Vec<u8>,
    SplitError,
>)
    ensures
        bytes_result_holds(
            *instructions,
            record.bytes@,
            crate::process_fields::res_view(r),
        ),
{
    let bytes = &record.bytes;
    let byte_length = bytes.len();

    if instructions.count {
        return Ok(decimal_bytes(byte_length));
    }

    if byte_length == 0 {
        if instructions.strict_return {
            return Err(SplitError::EmptyResult);
        }
        if instructions.strict_bounds && instructions.selections.len() > 0 {
            return Err(SplitError::EmptyBounds);
        }
        return Ok(Vec::new());
    }

    if instructions.selections.len() == 0 {
        if instructions.invert {
            if instructions.strict_return {
                return Err(SplitError::EmptyResult);
            }
            return Ok(Vec::new());
        }
        return Ok(record.bytes);
    }

    let kept = match normalise_selections(
        &instructions.selections,
        byte_length,
        instructions.placeholder.is_some(),
        instructions.strict_bounds,
        instructions.strict_range_order,
    ) {
        Ok(v) => v,
        Err(e) => { return Err(e); },
    };

    proof {
        crate::selection::lemma_normalise_ok_length(
            instructions.selections@,
            byte_length,
            instructions.placeholder.deep_view() is Some,
            instructions.strict_bounds,
            instructions.strict_range_order,
        );
    }
    let ghost gkept = kept@;
    let ranges = if instructions.invert {
        invert_selections(kept, byte_length)
    } else {
        kept
    };
    proof {
        assert forall|k: int| 0 <= k < ranges@.len() implies (#[trigger] ranges@[k]).0
            <= ranges@[k].1 < usize::MAX by {
            if instructions.invert {
                assert(ranges@.contains(ranges@[k]));
                let x = ranges@[k];
                if !(x.1 < byte_length) {
                    let y = choose|y: (usize, usize)| #[trigger] gkept.contains(y) && x.1 <= y.1;
                    let m = choose|m: int| 0 <= m < gkept.len() && gkept[m] == y;
                }
            }
        }
    }

    let (out, has_content) = emit_byte_ranges(bytes, &instructions.placeholder, &ranges);
    if instructions.strict_return && !has_content {
        Err(SplitError::EmptyResult)
    } else {
        Ok(out)
    }
}

} // verus!
