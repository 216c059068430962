//! Cutting an input stream into records, and the single-threaded
//! assembly of a whole run: split, process every record, and collect the
//! outputs in input order.

use vstd::prelude::*;
use crate::pipeline::{collect_results, process_records, RunError};
use crate::selection::SplitError;
use crate::types::{Align, InputMode, Instructions, Record, ResultChunk, SelectionMode};

verus! {

/// The position of the first `terminator` at or after `from`, or the end
/// of the input.
pub open spec fn spec_find_terminator(input: Seq<u8>, terminator: u8, from: int) -> int
    decreases input.len() - from,
{
    if from < 0 || from >= input.len() {
        input.len() as int
    } else if input[from] == terminator {
        from
    } else {
        spec_find_terminator(input, terminator, from + 1)
    }
}

/// One record's bytes: the chunk before the terminator, with a carriage
/// return stripped when the terminator is a line feed.
pub open spec fn spec_record_bytes(chunk: Seq<u8>, terminator: u8, terminated: bool) -> Seq<u8> {
    if terminated && terminator == 10 && chunk.len() > 0 && chunk.last() == 13 {
        chunk.drop_last()
    } else {
        chunk
    }
}

/// The record chunks of the input from position `from` on: bytes and
/// whether the record had its terminator.
pub open spec fn spec_records_from(input: Seq<u8>, terminator: u8, from: int) -> Seq<
    (Seq<u8>, bool),
>
    decreases input.len() - from,
    via spec_records_from_decreases
{
    if from < 0 || from >= input.len() {
        Seq::empty()
    } else {
        let t = spec_find_terminator(input, terminator, from);
        if t >= input.len() {
            seq![(spec_record_bytes(input.subrange(from, t), terminator, false), false)]
        } else {
            seq![(spec_record_bytes(input.subrange(from, t), terminator, true), true)]
                + spec_records_from(input, terminator, t + 1)
        }
    }
}

/// The terminator-stripped record chunks of the whole input under an
/// input mode: lines, zero-terminated chunks, or the input as one
/// record.
pub open spec fn spec_records(input: Seq<u8>, mode: InputMode) -> Seq<(Seq<u8>, bool)> {
    match mode {
        InputMode::PerLine => spec_records_from(input, 10, 0),
        InputMode::ZeroTerminated => spec_records_from(input, 0, 0),
        InputMode::WholeString => seq![(input, false)],
    }
}

#[via_fn]
proof fn spec_records_from_decreases(input: Seq<u8>, terminator: u8, from: int) {
    if 0 <= from < input.len() {
        lemma_find_terminator_bounds(input, terminator, from);
    }
}

/// The bounds of the terminator search.
proof fn lemma_find_terminator_bounds(input: Seq<u8>, terminator: u8, from: int)
    requires
        0 <= from <= input.len(),
    ensures
        from <= spec_find_terminator(input, terminator, from) <= input.len(),
    decreases input.len() - from,
{
    if from < input.len() && input[from] != terminator {
        lemma_find_terminator_bounds(input, terminator, from + 1);
    }
}

/// Read the record starting at `position`: its bytes (terminator and a
/// preceding carriage return for line feeds stripped), whether it had
/// its terminator, and the position just past it. Returns nothing at
/// the end of the input.
pub fn read_record(input: &Vec<u8>, position: usize, terminator: u8) -> (r: Option<
    (Vec<u8>, bool, usize),
>)
    requires
        position <= input@.len(),
    ensures
        match r {
            Some(rec) => {
                &&& position < input@.len()
                &&& position < rec.2 <= input@.len()
                &&& {
                    let t = spec_find_terminator(input@, terminator, position as int);
                    &&& rec.1 == (t < input@.len())
                    &&& rec.0@ == spec_record_bytes(
                        input@.subrange(position as int, t),
                        terminator,
                        rec.1,
                    )
                    &&& rec.2 == if t < input@.len() {
                        t + 1
                    } else {
                        input@.len() as int
                    }
                }
            },
            None => position == input@.len(),
        },
{
    if position >= input.len() {
        return None;
    }
    let mut t: usize = position;
    while t < input.len() && input[t] != terminator
        invariant
            position <= t <= input@.len(),
            forall|m: int| position <= m < t ==> input@[m] != terminator,
        decreases input@.len() - t,
    {
        t = t + 1;
    }
    proof {
        lemma_find_terminator_value(input@, terminator, position as int, t as int);
    }
    let mut chunk: Vec<u8> = Vec::new();
    let mut m: usize = position;
    while m < t
        invariant
            position <= m <= t <= input@.len(),
            chunk@ == input@.subrange(position as int, m as int),
        decreases t - m,
    {
        chunk.push(input[m]);
        proof {
            assert(chunk@ =~= input@.subrange(position as int, m + 1));
        }
        m = m + 1;
    }
    let terminated = t < input.len();
    if terminated && terminator == 10 && chunk.len() > 0 && chunk[chunk.len() - 1] == 13 {
        let _ = chunk.pop();
        proof {
            assert(chunk@ =~= spec_record_bytes(
                input@.subrange(position as int, t as int),
                terminator,
                true,
            ));
        }
    }
    let next_position = if terminated {
        t + 1
    } else {
        t
    };
    Some((chunk, terminated, next_position))
}

/// A scan that walked from `from` past non-terminators and stopped at
/// `t` found the spec's terminator position.
proof fn lemma_find_terminator_value(input: Seq<u8>, terminator: u8, from: int, t: int)
    requires
        0 <= from <= t <= input.len(),
        forall|m: int| from <= m < t ==> input[m] != terminator,
        t == input.len() || input[t] == terminator,
    ensures
        spec_find_terminator(input, terminator, from) == t,
    decreases t - from,
{
    if from < t {
        lemma_find_terminator_value(input, terminator, from + 1, t);
    }
}

/// Cut the whole input into records under the input mode, assigning
/// gap-free indices from zero and keeping each record's terminator flag.
pub fn split_records(input: &Vec<u8>, mode: InputMode) -> (r: Vec<Record>)
    ensures
        r@.len() == spec_records(input@, mode).len(),
        forall|k: int| 0 <= k < r@.len() ==> {
            &&& (#[trigger] r@[k]).index == k
            &&& r@[k].bytes@ == spec_records(input@, mode)[k].0
            &&& r@[k].has_terminator == spec_records(input@, mode)[k].1
            &&& r@[k].field_widths is None
            &&& r@[k].join_widths is None
        },
{
    let mut records: Vec<Record> = Vec::new();
    match mode {
        InputMode::WholeString => {
            let mut bytes: Vec<u8> = Vec::new();
            bytes.extend_from_slice(input.as_slice());
            proof {
                assert(bytes@ =~= input@);
            }
            records.push(
                Record {
                    index: 0,
                    bytes,
                    has_terminator: false,
                    field_widths: None,
                    join_widths: None,
                },
            );
        },
        _ => {
            let terminator: u8 = match mode {
                InputMode::ZeroTerminated => 0,
                _ => 10,
            };
            let mut position: usize = 0;
            let mut index: usize = 0;
            while position < input.len()
                invariant
                    position <= input@.len(),
                    index == records@.len(),
                    index <= position,
                    spec_records_from(input@, terminator, 0) == records@.map_values(
                        |rec: Record| (rec.bytes@, rec.has_terminator),
                    ) + spec_records_from(input@, terminator, position as int),
                    forall|k: int| 0 <= k < records@.len() ==> {
                        &&& (#[trigger] records@[k]).index == k
                        &&& records@[k].field_widths is None
                        &&& records@[k].join_widths is None
                    },
                decreases input@.len() - position,
            {
                let ghost pre = records@;
                match read_record(input, position, terminator) {
                    Some((bytes, has_terminator, next_position)) => {
                        let ghost gbytes = bytes@;
                        records.push(
                            Record {
                                index,
                                bytes,
                                has_terminator,
                                field_widths: None,
                                join_widths: None,
                            },
                        );
                        proof {
                            lemma_find_terminator_bounds(input@, terminator, position as int);
                            assert(records@.map_values(
                                |rec: Record| (rec.bytes@, rec.has_terminator),
                            ) =~= pre.map_values(|rec: Record| (rec.bytes@, rec.has_terminator))
                                + seq![(gbytes, has_terminator)]);
                            if has_terminator {
                                assert(spec_records_from(input@, terminator, position as int)
                                    =~= seq![(gbytes, has_terminator)] + spec_records_from(
                                    input@,
                                    terminator,
                                    next_position as int,
                                ));
                            } else {
                                assert(spec_records_from(input@, terminator, next_position as int)
                                    =~= Seq::<(Seq<u8>, bool)>::empty());
                                assert(spec_records_from(input@, terminator, position as int)
                                    =~= seq![(gbytes, has_terminator)] + spec_records_from(
                                    input@,
                                    terminator,
                                    next_position as int,
                                ));
                            }
                            assert(pre.map_values(|rec: Record| (rec.bytes@, rec.has_terminator))
                                + (seq![(gbytes, has_terminator)] + spec_records_from(
                                input@,
                                terminator,
                                next_position as int,
                            )) =~= (pre.map_values(|rec: Record| (rec.bytes@, rec.has_terminator))
                                + seq![(gbytes, has_terminator)]) + spec_records_from(
                                input@,
                                terminator,
                                next_position as int,
                            ));
                        }
                        position = next_position;
                        index = index + 1;
                    },
                    None => {
                        proof {
                            assert(false);
                        }
                    },
                }
            }
            proof {
                assert(spec_records_from(input@, terminator, position as int) =~= Seq::<
                    (Seq<u8>, bool),
                >::empty());
                assert(records@.map_values(|rec: Record| (rec.bytes@, rec.has_terminator))
                    + spec_records_from(input@, terminator, position as int) =~= records@
                    .map_values(|rec: Record| (rec.bytes@, rec.has_terminator)));
            }
        },
    }
    proof {
        assert forall|k: int| 0 <= k < records@.len() implies {
            &&& (#[trigger] records@[k]).index == k
            &&& records@[k].bytes@ == spec_records(input@, mode)[k].0
            &&& records@[k].has_terminator == spec_records(input@, mode)[k].1
            &&& records@[k].field_widths is None
            &&& records@[k].join_widths is None
        } by {
            assert(records@.map_values(|rec: Record| (rec.bytes@, rec.has_terminator))[k] == (
                records@[k].bytes@,
                records@[k].has_terminator,
            ));
        }
    }
    records
}

/// All outputs rendered in order: each record's bytes, then the
/// terminator when the record had one.
pub open spec fn spec_render_all(
    outs: Seq<crate::pipeline::OutputRecordView>,
    terminator: Option<u8>,
) -> Seq<u8>
    decreases outs.len(),
{
    if outs.len() == 0 {
        Seq::empty()
    } else {
        spec_render_all(outs.drop_last(), terminator) + crate::pipeline::spec_rendered(
            outs.last(),
            terminator,
        )
    }
}

/// Collecting a single chunk that starts at zero renders its outputs in
/// order.
proof fn lemma_collected_single(c: ResultChunk, terminator: Option<u8>, upto: int)
    requires
        c is Done,
        crate::pipeline::chunk_start(c) == 0,
        0 <= upto <= crate::pipeline::chunk_outputs(c).len(),
    ensures
        crate::pipeline::spec_collected(seq![c], terminator, upto) == spec_render_all(
            crate::pipeline::chunk_outputs(c).take(upto),
            terminator,
        ),
    decreases upto,
{
    if upto > 0 {
        lemma_collected_single(c, terminator, upto - 1);
        let outs = crate::pipeline::chunk_outputs(c);
        assert(crate::pipeline::chunk_covers(seq![c][0], upto - 1));
        let ci = choose|ci: int|
            0 <= ci < seq![c].len() && crate::pipeline::chunk_covers(
                #[trigger] seq![c][ci],
                upto - 1,
            );
        assert(ci == 0);
        assert(crate::pipeline::record_at(seq![c], upto - 1) == outs[upto - 1]);
        assert(outs.take(upto).drop_last() =~= outs.take(upto - 1));
        assert(outs.take(upto).last() == outs[upto - 1]);
    }
}

/// The record terminator written between outputs under an input mode.
pub open spec fn spec_terminator(mode: InputMode) -> Option<u8> {
    match mode {
        InputMode::PerLine => Some(10u8),
        InputMode::ZeroTerminated => Some(0u8),
        InputMode::WholeString => None,
    }
}

/// Whether the alignment pre-pass runs: alignment requested, field
/// mode, per-line input.
pub open spec fn spec_align_active(ins: Instructions) -> bool {
    !(ins.align is NoAlign) && ins.selection_mode is Fields && ins.input_mode is PerLine
}

/// `recs2` holds exactly the cut records: the bytes and terminator
/// flags of `recs`, indexed gap-free from zero.
pub open spec fn records_match(recs2: Seq<Record>, recs: Seq<(Seq<u8>, bool)>) -> bool {
    &&& recs2.len() == recs.len()
    &&& forall|k: int| 0 <= k < recs.len() ==> (#[trigger] recs2[k]).bytes@ == recs[k].0
    &&& forall|k: int| 0 <= k < recs.len() ==> (#[trigger] recs2[k]).has_terminator == recs[k].1
    &&& forall|k: int| 0 <= k < recs.len() ==> (#[trigger] recs2[k]).index == k
}

/// One full successful run over the cut records `recs`: a record
/// sequence carrying exactly those records — with the width tables the
/// scanner computed on them when alignment is active, and none
/// otherwise — processed record by record into `outs`, each output's
/// bytes the per-record processor's exact result and each terminator
/// flag carried through.
pub open spec fn pipeline_run_of(
    recs2: Seq<Record>,
    outs: Seq<crate::pipeline::OutputRecordView>,
    recs: Seq<(Seq<u8>, bool)>,
    ins: Instructions,
) -> bool {
    &&& records_match(recs2, recs)
    &&& outs.len() == recs.len()
    &&& forall|k: int| 0 <= k < recs.len() ==> (#[trigger] outs[k]).has_terminator == recs[k].1
    &&& forall|k: int| 0 <= k < recs.len() ==> crate::pipeline::record_result_holds(
        ins,
        recs2[k],
        Ok((#[trigger] outs[k]).bytes),
    )
    &&& (spec_align_active(ins) ==> exists|w: Seq<usize>, jw: Seq<usize>|
        {
            &&& #[trigger] crate::widths::scan_result_holds(recs2, ins, w, jw)
            &&& forall|k: int| 0 <= k < recs.len() ==> crate::process_fields::widths_view(
                (#[trigger] recs2[k]).field_widths,
            ) == w && crate::process_fields::widths_view(recs2[k].join_widths) == jw
        })
    &&& (!spec_align_active(ins) ==> forall|k: int|
        0 <= k < recs.len() ==> (#[trigger] recs2[k]).field_widths is None
            && recs2[k].join_widths is None)
}

/// Run the whole pipeline over an in-memory input: cut it into records,
/// run the alignment pre-pass when alignment is active, process every
/// record, and collect the outputs in input order. A successful run
/// renders exactly the per-record processor's results, in record
/// order. A failed run reports a record-level error: on an empty
/// input, the strict-mode checks; otherwise a width-scanner failure at
/// position zero, or the first failing record's index and error. An
/// ordering fault cannot happen in this single-batch assembly.
pub fn run_pipeline(input: &Vec<u8>, instructions: &Instructions) -> (r: Result<Vec<u8>, RunError>)
    ensures
        ({
            let recs = spec_records(input@, instructions.input_mode);
            match r {
                Ok(v) => {
                    if recs.len() == 0 {
                        if instructions.count {
                            v@ == seq![48u8]
                        } else {
                            !instructions.strict_return && !(instructions.strict_bounds
                                && instructions.selections@.len() > 0) && v@ == Seq::<u8>::empty()
                        }
                    } else {
                        exists|recs2: Seq<Record>, outs: Seq<crate::pipeline::OutputRecordView>|
                            {
                                &&& #[trigger] pipeline_run_of(recs2, outs, recs, *instructions)
                                &&& v@ == spec_render_all(
                                    outs,
                                    spec_terminator(instructions.input_mode),
                                )
                            }
                    }
                },
                Err(e) => match e {
                    RunError::Record { index, error } => {
                        if recs.len() == 0 {
                            &&& !instructions.count
                            &&& index == 0
                            &&& (instructions.strict_return ==> error == SplitError::EmptyResult)
                            &&& (!instructions.strict_return ==> instructions.strict_bounds
                                && instructions.selections@.len() > 0 && error is OutOfBounds)
                        } else {
                            ||| (spec_align_active(*instructions) && index == 0
                                && crate::widths::scan_error_possible(error))
                            ||| exists|recs2: Seq<Record>|
                                {
                                    &&& #[trigger] records_match(recs2, recs)
                                    &&& crate::pipeline::batch_failed_chunk(
                                        *instructions,
                                        recs2,
                                        index,
                                        error,
                                    )
                                }
                        }
                    },
                    RunError::OrderingFault { .. } => false,
                },
            }
        }),
{
    let mut records = split_records(input, instructions.input_mode);

    if records.len() == 0 {
        if instructions.count {
            let mut zero: Vec<u8> = Vec::new();
            zero.push(48);
            proof {
                assert(zero@ =~= seq![48u8]);
            }
            return Ok(zero);
        }
        if instructions.strict_return {
            return Err(RunError::Record { index: 0, error: SplitError::EmptyResult });
        }
        if instructions.strict_bounds && instructions.selections.len() > 0 {
            let (raw_start, _) = instructions.selections[0];
            return Err(
                RunError::Record {
                    index: 0,
                    error: SplitError::OutOfBounds { raw: raw_start, len: 0, single: true, at_end: false },
                },
            );
        }
        return Ok(Vec::new());
    }

    let align_active = match (instructions.align, instructions.selection_mode,
        instructions.input_mode) {
        (Align::NoAlign, _, _) => false,
        (_, SelectionMode::Fields, InputMode::PerLine) => true,
        _ => false,
    };
    proof {
        assert(align_active == spec_align_active(*instructions));
    }
    let ghost precut = records@;
    let ghost recs = spec_records(input@, instructions.input_mode);
    let ghost mut gw: Seq<usize> = Seq::empty();
    let ghost mut gjw: Seq<usize> = Seq::empty();
    if align_active {
        match crate::widths::get_largest_field_widths(&records, instructions) {
            Ok((w, jw)) => {
                proof {
                    gw = w@;
                    gjw = jw@;
                }
                let mut n: usize = 0;
                while n < records.len()
                    invariant
                        n <= records@.len(),
                        records@.len() == precut.len(),
                        w@.len() < usize::MAX,
                        jw@.len() < usize::MAX,
                        gw == w@,
                        gjw == jw@,
                        forall|k: int| 0 <= k < records@.len() ==> {
                            &&& (#[trigger] records@[k]).index == precut[k].index
                            &&& records@[k].bytes == precut[k].bytes
                            &&& records@[k].has_terminator == precut[k].has_terminator
                        },
                        forall|k: int| n <= k < records@.len() ==> (#[trigger] records@[k])
                            == precut[k],
                        forall|k: int| 0 <= k < n ==> {
                            &&& (#[trigger] records@[k]).field_widths matches Some(fw) && fw@
                                == w@
                            &&& records@[k].join_widths matches Some(jw2) && jw2@ == jw@
                        },
                    decreases records.len() - n,
                {
                    let widths_copy = w.clone();
                    let join_widths_copy = jw.clone();
                    proof {
                        assert(widths_copy@ == w@);
                        assert(join_widths_copy@ == jw@);
                    }
                    let entry = &mut records[n];
                    entry.field_widths = Some(widths_copy);
                    entry.join_widths = Some(join_widths_copy);
                    n = n + 1;
                }
                proof {
                    crate::widths::lemma_scan_result_same_bytes(
                        precut,
                        records@,
                        *instructions,
                        w@,
                        jw@,
                    );
                }
            },
            Err(e) => {
                return Err(RunError::Record { index: 0, error: e });
            },
        }
    }

    let terminator: Option<u8> = match instructions.input_mode {
        InputMode::PerLine => Some(10),
        InputMode::ZeroTerminated => Some(0),
        InputMode::WholeString => None,
    };

    let ghost grecords = records@;
    proof {
        assert(records_match(grecords, recs)) by {
            assert forall|k: int| 0 <= k < recs.len() implies {
                &&& (#[trigger] grecords[k]).bytes@ == recs[k].0
                &&& grecords[k].has_terminator == recs[k].1
                &&& grecords[k].index == k
            } by {
                assert(precut[k].bytes@ == recs[k].0);
            }
        }
        if align_active {
            assert(crate::widths::scan_result_holds(grecords, *instructions, gw, gjw));
        } else {
            assert(forall|k: int| 0 <= k < recs.len() ==> (#[trigger] grecords[k]).field_widths
                is None && grecords[k].join_widths is None);
        }
    }
    let chunk = process_records(instructions, records);
    match chunk {
        ResultChunk::Failed { index, error } => {
            proof {
                assert(records_match(grecords, recs));
                assert(crate::pipeline::batch_failed_chunk(*instructions, grecords, index, error));
            }
            Err(RunError::Record { index, error })
        },
        ResultChunk::Done { start_index, outputs } => {
            let ghost gouts = outputs.deep_view();
            let done = ResultChunk::Done { start_index, outputs };
            proof {
                assert(crate::pipeline::chunk_outputs(done) == gouts);
                assert(crate::pipeline::chunk_start(done) == start_index as int);
            }
            let mut chunks: Vec<ResultChunk> = Vec::new();
            chunks.push(done);
            let ghost total = gouts.len() as int;
            proof {
                assert(grecords[0].index == 0);
                assert(start_index == 0);
                assert(chunks@ =~= seq![done]);
                assert(crate::pipeline::chunks_tile(chunks@, total)) by {
                    assert(chunks@[0] == done);
                    assert forall|k: int| 0 <= k < total implies #[trigger] crate::pipeline
                        ::stream_covers(chunks@, k) by {
                        assert(crate::pipeline::chunk_covers(chunks@[0], k));
                    }
                }
                lemma_collected_single(done, terminator, total);
                assert(crate::pipeline::chunk_outputs(done).take(total) =~= gouts);
            }
            let collected = crate::pipeline::collect_results(chunks, terminator);
            match collected {
                Ok(v) => {
                    proof {
                        assert(v@ == spec_render_all(gouts, terminator));
                        assert(terminator == spec_terminator(instructions.input_mode));
                        assert(recs.len() == grecords.len());
                        assert(pipeline_run_of(grecords, gouts, recs, *instructions)) by {
                            assert forall|k: int| 0 <= k < recs.len() implies {
                                &&& (#[trigger] gouts[k]).has_terminator == recs[k].1
                                &&& crate::pipeline::record_result_holds(
                                    *instructions,
                                    grecords[k],
                                    Ok(gouts[k].bytes),
                                )
                            } by {
                                assert(gouts[k].has_terminator == grecords[k].has_terminator);
                                assert(gouts[k].bytes == outputs@[k].bytes@);
                            }
                        }
                    }
                    Ok(v)
                },
                Err(e) => {
                    proof {
                        assert(0 <= total <= usize::MAX);
                        assert(false);
                    }
                    Err(e)
                },
            }
        },
    }
}

} // verus!
