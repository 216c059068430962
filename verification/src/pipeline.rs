//! The pipeline's verified core: workers turn record batches into result
//! chunks, and the collector reassembles chunks — which arrive in any
//! order — into output that follows the input record order exactly.

use vstd::prelude::*;
use crate::process_bytes::bytes_result_holds;
use crate::process_chars::chars_result_holds;
use crate::process_fields::{process_fields_holds, res_view, widths_view};
use crate::selection::SplitError;
use crate::types::{InputMode, Instructions, OutputRecord, Record, ResultChunk, SelectionMode};

verus! {

/// The ghost image of one processed record.
pub ghost struct OutputRecordView {
    pub bytes: Seq<u8>,
    pub has_terminator: bool,
}

impl View for OutputRecord {
    type V = OutputRecordView;

    open spec fn view(&self) -> OutputRecordView {
        OutputRecordView { bytes: self.bytes@, has_terminator: self.has_terminator }
    }
}

impl DeepView for OutputRecord {
    type V = OutputRecordView;

    open spec fn deep_view(&self) -> OutputRecordView {
        self.view()
    }
}

/// What the per-record processor of the active selection mode returns
/// for one record: the mode's exact result over the record's bytes and
/// width tables. Field mode without a compiled matcher is a matcher
/// error.
pub open spec fn record_result_holds(
    instructions: Instructions,
    record: Record,
    r: Result<Seq<u8>, SplitError>,
) -> bool {
    match instructions.selection_mode {
        SelectionMode::Bytes => bytes_result_holds(instructions, record.bytes@, r),
        SelectionMode::Chars => chars_result_holds(instructions, record.bytes@, r),
        SelectionMode::Fields => match instructions.regex_engine {
            Some(engine) => process_fields_holds(
                instructions,
                engine,
                record.bytes@,
                widths_view(record.field_widths),
                widths_view(record.join_widths),
                r,
            ),
            None => r == Err::<Seq<u8>, SplitError>(SplitError::MatcherError),
        },
    }
}

/// The batch's first failure stands at position `k`: that record
/// carries the chunk's index and its error, and every record before it
/// processed successfully — `prefix` holds their outputs.
#[verifier::opaque]
pub open spec fn batch_fails_at(
    instructions: Instructions,
    batch: Seq<Record>,
    k: int,
    index: usize,
    error: SplitError,
    prefix: Seq<Seq<u8>>,
) -> bool {
    &&& 0 <= k < batch.len()
    &&& batch[k].index == index
    &&& record_result_holds(instructions, batch[k], Err::<Seq<u8>, SplitError>(error))
    &&& prefix.len() == k
    &&& forall|j: int| 0 <= j < k ==> record_result_holds(
        instructions,
        batch[j],
        Ok(#[trigger] prefix[j]),
    )
}

/// Some position of the batch is the first failure, carrying the
/// chunk's index and error.
pub open spec fn batch_failed_chunk(
    instructions: Instructions,
    batch: Seq<Record>,
    index: usize,
    error: SplitError,
) -> bool {
    exists|k: int, prefix: Seq<Seq<u8>>|
        #[trigger] batch_fails_at(instructions, batch, k, index, error, prefix)
}

/// Process one batch of records: every record through the per-record
/// processor in order. All successes go into one chunk tagged with the
/// batch's first index, each output's bytes exactly the per-record
/// processor's result and its terminator flag riding through unchanged.
/// The first failure ends the batch: the chunk carries that record's
/// index and its error, every earlier record having processed
/// successfully, and no later record is processed.
#[verifier::loop_isolation(false)]
#[verifier::rlimit(60)]
#[verifier::spinoff_prover]
pub fn process_records(instructions: &Instructions, batch: Vec<Record>) -> (r: ResultChunk)
    requires
        batch@.len() > 0,
        forall|k: int| 0 <= k < batch@.len() ==> ((#[trigger] batch@[k]).field_widths matches Some(
            w,
        ) ==> w@.len() < usize::MAX),
        forall|k: int| 0 <= k < batch@.len() ==> ((#[trigger] batch@[k]).join_widths matches Some(
            w,
        ) ==> w@.len() < usize::MAX),
    ensures
        r matches ResultChunk::Done { start_index, outputs } ==> {
            &&& start_index == batch@[0].index
            &&& outputs@.len() == batch@.len()
            &&& forall|k: int| 0 <= k < batch@.len() ==> (#[trigger] outputs@[k]).has_terminator
                == batch@[k].has_terminator
            &&& forall|k: int| 0 <= k < batch@.len() ==> record_result_holds(
                *instructions,
                batch@[k],
                Ok((#[trigger] outputs@[k]).bytes@),
            )
        },
        r matches ResultChunk::Failed { index, error } ==> batch_failed_chunk(
            *instructions,
            batch@,
            index,
            error,
        ),
{
    proof {
        assert(batch@[0].index == batch@[0].index);
    }
    let start_index = batch[0].index;
    let ghost original = batch@;
    let mut outputs: Vec<OutputRecord> = Vec::new();
    let mut position: usize = 0;
    let batch_len = batch.len();
    let mut records = batch;
    proof {
        assert(records@ =~= original.skip(0));
    }
    while records.len() > 0
        invariant
            position <= batch_len,
            batch_len == original.len(),
            records@.len() + position == batch_len,
            records@ == original.skip(position as int),
            outputs@.len() == position,
            forall|k: int| 0 <= k < original.len() ==> ((#[trigger] original[k]).field_widths
                matches Some(w) ==> w@.len() < usize::MAX),
            forall|k: int| 0 <= k < original.len() ==> ((#[trigger] original[k]).join_widths
                matches Some(w) ==> w@.len() < usize::MAX),
            forall|k: int| 0 <= k < position ==> (#[trigger] outputs@[k]).has_terminator
                == original[k].has_terminator,
            forall|k: int| 0 <= k < position ==> record_result_holds(
                *instructions,
                original[k],
                Ok((#[trigger] outputs@[k]).bytes@),
            ),
        decreases records@.len(),
    {
        let ghost pre_records = records@;
        let record = records.remove(0);
        proof {
            assert(pre_records[0] == original[position as int]);
            assert(records@ =~= original.skip(position + 1));
        }
        let record_index = record.index;
        let has_terminator = record.has_terminator;

        let processed: Result<Vec<u8>, SplitError> = match instructions.selection_mode {
            SelectionMode::Bytes => crate::process_bytes::process_bytes(instructions, record),
            SelectionMode::Chars => crate::process_chars::process_chars(instructions, record),
            SelectionMode::Fields => match &instructions.regex_engine {
                Some(engine) => crate::process_fields::process_fields(
                    instructions,
                    engine,
                    record,
                ),
                None => Err(SplitError::MatcherError),
            },
        };
        proof {
            assert(record_result_holds(*instructions, original[position as int], res_view(processed)));
        }

        match processed {
            Ok(bytes) => {
                outputs.push(OutputRecord { bytes, has_terminator });
            },
            Err(error) => {
                proof {
                    assert(original[position as int].index == record_index);
                    assert(res_view(processed) == Err::<Seq<u8>, SplitError>(error));
                    assert(record_result_holds(
                        *instructions,
                        original[position as int],
                        Err::<Seq<u8>, SplitError>(error),
                    ));
                    reveal(batch_fails_at);
                    let ghost out_prefix = Seq::new(
                        position as nat,
                        |j: int| outputs@[j].bytes@,
                    );
                    assert(batch_fails_at(
                        *instructions,
                        original,
                        position as int,
                        record_index,
                        error,
                        out_prefix,
                    )) by {
                        assert forall|j: int| 0 <= j < position implies record_result_holds(
                            *instructions,
                            original[j],
                            Ok(#[trigger] out_prefix[j]),
                        ) by {
                            assert(out_prefix[j] == outputs@[j].bytes@);
                            assert(record_result_holds(
                                *instructions,
                                original[j],
                                Ok(outputs@[j].bytes@),
                            ));
                        }
                    }
                    assert(batch_failed_chunk(*instructions, original, record_index, error));
                }
                return ResultChunk::Failed { index: record_index, error };
            },
        }
        position = position + 1;
    }
    ResultChunk::Done { start_index, outputs }
}

/// Why a whole run ended without output.
#[derive(Clone, Copy, Debug, PartialEq, Eq, Structural)]
pub enum RunError {
    /// A record failed; its 0-based index and the per-record error.
    Record { index: usize, error: SplitError },
    /// The result stream ended with a gap: no chunk carried this index.
    OrderingFault { missing: usize },
}

/// The starting record index of a finished chunk.
pub open spec fn chunk_start(c: ResultChunk) -> int {
    match c {
        ResultChunk::Done { start_index, .. } => start_index as int,
        ResultChunk::Failed { .. } => 0,
    }
}

/// The outputs of a finished chunk.
pub open spec fn chunk_outputs(c: ResultChunk) -> Seq<OutputRecordView> {
    match c {
        ResultChunk::Done { outputs, .. } => outputs.deep_view(),
        ResultChunk::Failed { .. } => Seq::empty(),
    }
}

/// Whether the chunk carries the record with global index `k`.
pub open spec fn chunk_covers(c: ResultChunk, k: int) -> bool {
    c is Done && chunk_start(c) <= k < chunk_start(c) + chunk_outputs(c).len()
}

/// Whether some chunk of the stream carries the record with index `k`.
pub open spec fn stream_covers(chunks: Seq<ResultChunk>, k: int) -> bool {
    exists|ci: int| 0 <= ci < chunks.len() && chunk_covers(#[trigger] chunks[ci], k)
}

/// A held entry mirrors the chunk it came from: same start, same outputs.
pub open spec fn pending_entry_ok(
    chunks: Seq<ResultChunk>,
    source: int,
    entry: (usize, Vec<OutputRecord>),
) -> bool {
    &&& 0 <= source < chunks.len()
    &&& chunks[source] is Done
    &&& chunk_start(chunks[source]) == entry.0 as int
    &&& chunk_outputs(chunks[source]) == entry.1.deep_view()
}

/// Whether one of the listed chunks (named by index) carries record `k`.
pub open spec fn held_covers(chunks: Seq<ResultChunk>, held: Seq<int>, k: int) -> bool {
    exists|j: int| 0 <= j < held.len() && chunk_covers(chunks[#[trigger] held[j]], k)
}

/// A result stream with no failure and no record carried twice: only
/// finished chunks, none empty, no two overlapping — a well-formed
/// stream except that records may be missing.
pub open spec fn chunks_disjoint(chunks: Seq<ResultChunk>) -> bool {
    &&& forall|ci: int| 0 <= ci < chunks.len() ==> (#[trigger] chunks[ci]) is Done
    &&& forall|ci: int| 0 <= ci < chunks.len() ==> chunk_outputs(#[trigger] chunks[ci]).len() > 0
    &&& forall|ci: int, cj: int| 0 <= ci < cj < chunks.len() ==> (chunk_start(#[trigger] chunks[ci])
        + chunk_outputs(chunks[ci]).len() <= chunk_start(#[trigger] chunks[cj]) || chunk_start(
        chunks[cj],
    ) + chunk_outputs(chunks[cj]).len() <= chunk_start(chunks[ci]))
}

/// A well-formed result stream for a run of `total` records: only
/// finished chunks, none empty, no two carrying the same record, all
/// records inside `[0, total)`, and every such record carried by some
/// chunk. The chunks may stand in any order.
pub open spec fn chunks_tile(chunks: Seq<ResultChunk>, total: int) -> bool {
    &&& chunks_disjoint(chunks)
    &&& forall|ci: int| 0 <= ci < chunks.len() ==> chunk_start(#[trigger] chunks[ci])
        + chunk_outputs(chunks[ci]).len() <= total
    &&& forall|k: int| 0 <= k < total ==> #[trigger] stream_covers(chunks, k)
}

/// The record with global index `k`, read off whichever chunk carries it.
pub open spec fn record_at(chunks: Seq<ResultChunk>, k: int) -> OutputRecordView {
    let ci = choose|ci: int| 0 <= ci < chunks.len() && chunk_covers(#[trigger] chunks[ci], k);
    chunk_outputs(chunks[ci])[k - chunk_start(chunks[ci])]
}

/// In a well-formed stream only one chunk carries each record, so any
/// carrying chunk gives the record's value.
proof fn lemma_record_at_unique(chunks: Seq<ResultChunk>, total: int, ci: int, k: int)
    requires
        chunks_tile(chunks, total),
        0 <= ci < chunks.len(),
        chunk_covers(chunks[ci], k),
    ensures
        record_at(chunks, k) == chunk_outputs(chunks[ci])[k - chunk_start(chunks[ci])],
{
    let cj = choose|cj: int| 0 <= cj < chunks.len() && chunk_covers(#[trigger] chunks[cj], k);
    if ci != cj {
        if ci < cj {
            assert(chunk_start(chunks[ci]) + chunk_outputs(chunks[ci]).len() <= chunk_start(
                chunks[cj],
            ) || chunk_start(chunks[cj]) + chunk_outputs(chunks[cj]).len() <= chunk_start(
                chunks[ci],
            ));
        } else {
            assert(chunk_start(chunks[cj]) + chunk_outputs(chunks[cj]).len() <= chunk_start(
                chunks[ci],
            ) || chunk_start(chunks[ci]) + chunk_outputs(chunks[ci]).len() <= chunk_start(
                chunks[cj],
            ));
        }
        assert(false);
    }
}

/// One output record as written: its bytes, then the record terminator
/// when the input record had one.
pub open spec fn spec_rendered(rec: OutputRecordView, terminator: Option<u8>) -> Seq<u8> {
    rec.bytes + (match terminator {
        Some(t) => if rec.has_terminator {
            seq![t]
        } else {
            Seq::empty()
        },
        None => Seq::empty(),
    })
}

/// The first `upto` records of the stream, rendered in record order.
pub open spec fn spec_collected(
    chunks: Seq<ResultChunk>,
    terminator: Option<u8>,
    upto: int,
) -> Seq<u8>
    decreases upto,
{
    if upto <= 0 {
        Seq::empty()
    } else {
        spec_collected(chunks, terminator, upto - 1) + spec_rendered(
            record_at(chunks, upto - 1),
            terminator,
        )
    }
}

/// `fi` is the position of the first failed chunk of the stream.
pub open spec fn first_failure_at(chunks: Seq<ResultChunk>, fi: int) -> bool {
    &&& 0 <= fi < chunks.len()
    &&& chunks[fi] is Failed
    &&& forall|j: int| 0 <= j < fi ==> !((#[trigger] chunks[j]) is Failed)
}

/// The stream leaves record `m` behind: every record below `m` is
/// carried by some chunk, `m` by none, and some record above `m` by
/// one — a gap that no flush discipline can close.
pub open spec fn stream_gap_at(chunks: Seq<ResultChunk>, m: int) -> bool {
    &&& chunks_disjoint(chunks)
    &&& 0 <= m <= usize::MAX
    &&& forall|k: int| 0 <= k < m ==> #[trigger] stream_covers(chunks, k)
    &&& !stream_covers(chunks, m)
    &&& exists|k: int| m < k && #[trigger] stream_covers(chunks, k)
}

/// Reassemble result chunks — in whatever order they arrived — into the
/// output stream. Whenever the chunks form a well-formed stream of
/// `total` records, the output is exactly the records `0 .. total` in
/// input order, each followed by its terminator: the output order never
/// depends on the order the chunks came in. The first failed chunk, in
/// arrival order, fails the run with that record's index and error; a
/// stream of finished chunks that leaves a gap is an ordering fault
/// naming the lowest missing record.
#[verifier::loop_isolation(false)]
#[verifier::rlimit(80)]
pub fn collect_results(chunks: Vec<ResultChunk>, terminator: Option<u8>) -> (r: Result<
    Vec<u8>,
    RunError,
>)
    ensures
        forall|total: int|
            0 <= total <= usize::MAX && #[trigger] chunks_tile(chunks@, total) ==> match r {
                Ok(v) => v@ == spec_collected(chunks@, terminator, total),
                Err(_) => false,
            },
        forall|fi: int| #[trigger] first_failure_at(chunks@, fi) ==> r == Err::<Vec<u8>, RunError>(
            RunError::Record {
                index: chunks@[fi]->Failed_index,
                error: chunks@[fi]->Failed_error,
            },
        ),
        forall|m: int| #[trigger] stream_gap_at(chunks@, m) ==> r == Err::<Vec<u8>, RunError>(
            RunError::OrderingFault { missing: m as usize },
        ),
{
    let ghost original = chunks@;
    let mut pending: Vec<(usize, Vec<OutputRecord>)> = Vec::new();
    let ghost mut sources: Seq<int> = Seq::empty();
    let mut arrivals = chunks;
    let mut arrived: usize = 0;
    let total_chunks = arrivals.len();
    while arrivals.len() > 0
        invariant
            arrived + arrivals@.len() == total_chunks,
            total_chunks == original.len(),
            arrivals@ == original.skip(arrived as int),
            sources.len() == pending@.len(),
            forall|j: int| 0 <= j < pending@.len() ==> 0 <= #[trigger] sources[j] < arrived,
            forall|j1: int, j2: int| 0 <= j1 < j2 < pending@.len() ==> sources[j1] != sources[j2],
            forall|j: int| 0 <= j < pending@.len() ==> #[trigger] pending_entry_ok(
                original,
                sources[j],
                pending@[j],
            ),
            forall|ci: int| 0 <= ci < arrived && original[ci] is Done ==> exists|j: int|
                0 <= j < pending@.len() && #[trigger] sources[j] == ci,
            forall|ci: int| 0 <= ci < arrived ==> !((#[trigger] original[ci]) is Failed),
        decreases arrivals@.len(),
    {
        let ghost pre_arrivals = arrivals@;
        let chunk = arrivals.remove(0);
        proof {
            assert(pre_arrivals[0] == original[arrived as int]);
            assert(arrivals@ =~= original.skip(arrived + 1));
        }
        match chunk {
            ResultChunk::Failed { index, error } => {
                proof {
                    assert forall|total: int|
                        0 <= total <= usize::MAX implies !chunks_tile(original, total) by {
                        if chunks_tile(original, total) {
                            assert(original[arrived as int] is Done);
                        }
                    }
                    assert(!chunks_disjoint(original)) by {
                        if chunks_disjoint(original) {
                            assert(original[arrived as int] is Done);
                        }
                    }
                    assert forall|fi: int| first_failure_at(original, fi) implies fi
                        == arrived as int by {
                        if fi < arrived {
                            assert(!(original[fi] is Failed));
                        }
                        if fi > arrived {
                            assert(!(original[arrived as int] is Failed));
                        }
                    }
                    assert(original[arrived as int]->Failed_index == index);
                    assert(original[arrived as int]->Failed_error == error);
                }
                return Err(RunError::Record { index, error });
            },
            ResultChunk::Done { start_index, outputs } => {
                let ghost pre_sources = sources;
                let ghost pre_pending = pending@;
                let ghost entry_outputs = outputs.deep_view();
                proof {
                    assert(chunk_start(original[arrived as int]) == start_index as int);
                    assert(chunk_outputs(original[arrived as int]) == entry_outputs);
                }
                pending.push((start_index, outputs));
                proof {
                    sources = pre_sources.push(arrived as int);
                    assert(pending@[pending@.len() - 1].1.deep_view() == entry_outputs);
                    assert forall|j: int| 0 <= j < pending@.len() implies #[trigger] pending_entry_ok(
                        original,
                        sources[j],
                        pending@[j],
                    ) by {
                        if j < pending@.len() - 1 {
                            assert(pending@[j] == pre_pending[j]);
                            assert(sources[j] == pre_sources[j]);
                            assert(pending_entry_ok(original, pre_sources[j], pre_pending[j]));
                        } else {
                            assert(pending@[j] == (start_index, pending@[j].1));
                            assert(pending@[j].0 == start_index);
                            assert(sources[j] == arrived as int);
                        }
                    }
                    assert forall|ci: int|
                        0 <= ci < arrived + 1 && original[ci] is Done implies exists|j: int|
                        0 <= j < pending@.len() && #[trigger] sources[j] == ci by {
                        if ci < arrived {
                            let j = choose|j: int|
                                0 <= j < pre_pending.len() && #[trigger] pre_sources[j] == ci;
                            assert(sources[j] == ci);
                        } else {
                            assert(sources[sources.len() - 1] == ci);
                        }
                    }
                }
            },
        }
        arrived = arrived + 1;
    }

    let mut out: Vec<u8> = Vec::new();
    let mut next: usize = 0;
    proof {
        assert(spec_collected(original, terminator, 0) =~= Seq::<u8>::empty());
        assert forall|total: int|
            0 <= total <= usize::MAX && #[trigger] chunks_tile(original, total) implies forall|
            k: int,
        | next <= k < total ==> #[trigger] held_covers(original, sources, k) by {
            assert forall|k: int| next <= k < total implies #[trigger] held_covers(
                original,
                sources,
                k,
            ) by {
                assert(stream_covers(original, k));
                let ci = choose|ci: int|
                    0 <= ci < original.len() && chunk_covers(#[trigger] original[ci], k);
                let j = choose|j: int| 0 <= j < pending@.len() && #[trigger] sources[j] == ci;
                assert(chunk_covers(original[sources[j]], k));
            }
        }
        if chunks_disjoint(original) {
            assert forall|ci: int|
                0 <= ci < original.len() && chunk_start(original[ci]) + chunk_outputs(
                    original[ci],
                ).len() > next as int implies exists|j: int|
                0 <= j < sources.len() && #[trigger] sources[j] == ci by {
                assert(original[ci] is Done);
            }
        }
    }
    let mut progress = true;
    while progress
        invariant
            sources.len() == pending@.len(),
            forall|j: int| 0 <= j < pending@.len() ==> 0 <= #[trigger] sources[j] < original.len(),
            forall|j1: int, j2: int| 0 <= j1 < j2 < pending@.len() ==> sources[j1] != sources[j2],
            forall|j: int| 0 <= j < pending@.len() ==> #[trigger] pending_entry_ok(
                original,
                sources[j],
                pending@[j],
            ),
            forall|ci: int| 0 <= ci < original.len() ==> !((#[trigger] original[ci]) is Failed),
            !progress ==> forall|t: int| 0 <= t < pending@.len() ==> (#[trigger] pending@[t]).0
                != next,
            forall|total: int|
                0 <= total <= usize::MAX && #[trigger] chunks_tile(original, total) ==> {
                    &&& out@ == spec_collected(original, terminator, next as int)
                    &&& next <= total
                    &&& (forall|j: int| 0 <= j < pending@.len() ==> (#[trigger] pending@[j]).0
                        >= next)
                    &&& (forall|k: int| next <= k < total ==> #[trigger] held_covers(
                        original,
                        sources,
                        k,
                    ))
                },
            chunks_disjoint(original) ==> {
                &&& (forall|k: int| 0 <= k < next ==> #[trigger] stream_covers(original, k))
                &&& (forall|j: int| 0 <= j < pending@.len() ==> (#[trigger] pending@[j]).0 >= next)
                &&& (forall|ci: int|
                    0 <= ci < original.len() && chunk_start(#[trigger] original[ci])
                        + chunk_outputs(original[ci]).len() > next as int ==> exists|j: int|
                        0 <= j < sources.len() && #[trigger] sources[j] == ci)
            },
        decreases pending@.len() + (if progress {
            1int
        } else {
            0int
        }),
    {
        let mut found = pending.len();
        let mut j: usize = 0;
        while j < pending.len()
            invariant
                j <= pending@.len(),
                found == pending@.len() || (found < pending@.len() && pending@[found as int].0
                    == next),
                found == pending@.len() ==> forall|t: int| 0 <= t < j ==> (
                #[trigger] pending@[t]).0 != next,
            decreases pending@.len() - j,
        {
            if found == pending.len() && pending[j].0 == next {
                found = j;
            }
            j = j + 1;
        }
        if found == pending.len() {
            progress = false;
            continue ;
        }

        let ghost removed_source = sources[found as int];
        let ghost pre_pending = pending@;
        let ghost pre_sources = sources;
        proof {
            assert(pending_entry_ok(original, removed_source, pre_pending[found as int]));
        }
        let (start, outputs) = pending.remove(found);
        let ghost entry_view = outputs.deep_view();
        proof {
            sources = pre_sources.remove(found as int);
            pre_pending.remove_ensures(found as int);
            pre_sources.remove_ensures(found as int);
            assert((start, outputs) == pre_pending[found as int]);
            assert(entry_view == chunk_outputs(original[removed_source]));
            assert(start as int == chunk_start(original[removed_source]));
            assert(start == next);
            assert forall|j2: int| 0 <= j2 < pending@.len() implies #[trigger] pending_entry_ok(
                original,
                sources[j2],
                pending@[j2],
            ) by {
                let old_j2: int = if j2 < found {
                    j2
                } else {
                    j2 + 1
                };
                assert(pending@[j2] == pre_pending[old_j2]);
                assert(sources[j2] == pre_sources[old_j2]);
                assert(pending_entry_ok(original, pre_sources[old_j2], pre_pending[old_j2]));
            }
            assert forall|j1: int, j2: int|
                0 <= j1 < j2 < pending@.len() implies sources[j1] != sources[j2] by {
                let old_j1: int = if j1 < found {
                    j1
                } else {
                    j1 + 1
                };
                let old_j2: int = if j2 < found {
                    j2
                } else {
                    j2 + 1
                };
                assert(sources[j1] == pre_sources[old_j1]);
                assert(sources[j2] == pre_sources[old_j2]);
            }
        }
        let outputs_len = outputs.len();
        proof {
            assert(outputs_len == chunk_outputs(original[removed_source]).len());
        }
        if outputs_len > usize::MAX - next {
            // a stream this long cannot index its records; it cannot be
            // well-formed for any representable record count, and it
            // leaves no representable gap either: the chunk standing at
            // `next` runs past the address space, covering every index
            proof {
                assert forall|total: int|
                    0 <= total <= usize::MAX implies !chunks_tile(original, total) by {
                    if chunks_tile(original, total) {
                        assert(chunk_start(original[removed_source]) + chunk_outputs(
                            original[removed_source],
                        ).len() <= total);
                    }
                }
                assert forall|m: int| stream_gap_at(original, m) implies false by {
                    if m < next {
                        assert(stream_covers(original, m));
                    } else {
                        assert(chunk_covers(original[removed_source], m));
                        assert(stream_covers(original, m));
                    }
                }
            }
            return Err(RunError::OrderingFault { missing: next });
        }
        let ghost flush_base = next as int;
        let mut o: usize = 0;
        let mut rest = outputs;
        proof {
            assert(rest.deep_view() =~= chunk_outputs(original[removed_source]).skip(0));
            if chunks_disjoint(original) {
                assert forall|ci: int|
                    0 <= ci < original.len() && chunk_start(#[trigger] original[ci])
                        + chunk_outputs(original[ci]).len() > next as int implies (ci
                    == removed_source || exists|j: int|
                    0 <= j < sources.len() && #[trigger] sources[j] == ci) by {
                    if ci != removed_source {
                        let old_j = choose|old_j: int|
                            0 <= old_j < pre_sources.len() && #[trigger] pre_sources[old_j] == ci;
                        let j2: int = if old_j < found {
                            old_j
                        } else {
                            old_j - 1
                        };
                        assert(pre_sources[found as int] == removed_source);
                        assert(old_j != found);
                        assert(sources[j2] == pre_sources[old_j]);
                    }
                }
            }
        }
        while rest.len() > 0
            invariant
                o + rest@.len() == outputs_len,
                next == flush_base + o,
                next + rest@.len() <= usize::MAX,
                rest.deep_view() == chunk_outputs(original[removed_source]).skip(o as int),
                forall|total: int|
                    0 <= total <= usize::MAX && #[trigger] chunks_tile(original, total) ==> out@
                        == spec_collected(original, terminator, next as int),
                chunks_disjoint(original) ==> {
                    &&& (forall|k: int| 0 <= k < next ==> #[trigger] stream_covers(original, k))
                    &&& (forall|ci: int|
                        0 <= ci < original.len() && chunk_start(#[trigger] original[ci])
                            + chunk_outputs(original[ci]).len() > next as int ==> (ci
                            == removed_source || exists|j: int|
                            0 <= j < sources.len() && #[trigger] sources[j] == ci))
                },
            decreases rest@.len(),
        {
            let ghost pre_rest = rest.deep_view();
            let ghost pre_out = out@;
            let record = rest.remove(0);
            proof {
                assert(pre_rest[0] == chunk_outputs(original[removed_source])[o as int]);
                assert(rest.deep_view() =~= pre_rest.skip(1));
                assert(pre_rest.skip(1) =~= chunk_outputs(original[removed_source]).skip(o + 1));
                assert(record@ == chunk_outputs(original[removed_source])[o as int]);
            }
            out.extend_from_slice(record.bytes.as_slice());
            match terminator {
                Some(t) => {
                    if record.has_terminator {
                        out.push(t);
                    }
                },
                None => {},
            }
            proof {
                assert(out@ =~= pre_out + spec_rendered(record@, terminator));
                assert forall|total: int|
                    0 <= total <= usize::MAX && #[trigger] chunks_tile(original, total) implies out@
                    == spec_collected(original, terminator, next + 1) by {
                    assert(chunk_covers(original[removed_source], next as int));
                    lemma_record_at_unique(original, total, removed_source, next as int);
                    assert(record_at(original, next as int) == record@);
                }
                if chunks_disjoint(original) {
                    assert(chunk_covers(original[removed_source], next as int));
                    assert(stream_covers(original, next as int));
                }
            }
            next = next + 1;
            o = o + 1;
        }
        proof {
            if chunks_disjoint(original) {
                assert(next == chunk_start(original[removed_source]) + chunk_outputs(
                    original[removed_source],
                ).len());
                assert forall|j2: int| 0 <= j2 < pending@.len() implies (
                #[trigger] pending@[j2]).0 >= next by {
                    let s2 = sources[j2];
                    assert(pending_entry_ok(original, s2, pending@[j2]));
                    let old_j2: int = if j2 < found {
                        j2
                    } else {
                        j2 + 1
                    };
                    assert(pending@[j2] == pre_pending[old_j2]);
                    assert(s2 == pre_sources[old_j2]);
                    assert(s2 != removed_source);
                    assert(pre_pending[old_j2].0 >= flush_base);
                    if (pending@[j2].0 as int) < next {
                        assert(chunk_outputs(original[s2]).len() > 0);
                        assert(chunk_covers(original[s2], pending@[j2].0 as int));
                        assert(chunk_covers(original[removed_source], pending@[j2].0 as int));
                        if s2 < removed_source {
                            assert(chunk_start(original[s2]) + chunk_outputs(original[s2]).len()
                                <= chunk_start(original[removed_source]) || chunk_start(
                                original[removed_source],
                            ) + chunk_outputs(original[removed_source]).len() <= chunk_start(
                                original[s2],
                            ));
                        } else {
                            assert(chunk_start(original[removed_source]) + chunk_outputs(
                                original[removed_source],
                            ).len() <= chunk_start(original[s2]) || chunk_start(original[s2])
                                + chunk_outputs(original[s2]).len() <= chunk_start(
                                original[removed_source],
                            ));
                        }
                        assert(false);
                    }
                }
                assert forall|ci: int|
                    0 <= ci < original.len() && chunk_start(#[trigger] original[ci])
                        + chunk_outputs(original[ci]).len() > next as int implies exists|j: int|
                    0 <= j < sources.len() && #[trigger] sources[j] == ci by {
                    assert(ci == removed_source || exists|j: int|
                        0 <= j < sources.len() && #[trigger] sources[j] == ci);
                    if ci == removed_source {
                        assert(false);
                    }
                }
            }
            assert forall|total: int|
                0 <= total <= usize::MAX && #[trigger] chunks_tile(original, total) implies {
                &&& next <= total
                &&& (forall|j2: int| 0 <= j2 < pending@.len() ==> (#[trigger] pending@[j2]).0
                    >= next)
                &&& (forall|k: int| next <= k < total ==> #[trigger] held_covers(
                    original,
                    sources,
                    k,
                ))
            } by {
                assert(chunk_start(original[removed_source]) + chunk_outputs(
                    original[removed_source],
                ).len() <= total);
                assert(next == chunk_start(original[removed_source]) + chunk_outputs(
                    original[removed_source],
                ).len());
                assert forall|j2: int| 0 <= j2 < pending@.len() implies (
                #[trigger] pending@[j2]).0 >= next by {
                    let s2 = sources[j2];
                    assert(pending_entry_ok(original, s2, pending@[j2]));
                    let old_j2: int = if j2 < found {
                        j2
                    } else {
                        j2 + 1
                    };
                    assert(pending@[j2] == pre_pending[old_j2]);
                    assert(s2 == pre_sources[old_j2]);
                    assert(s2 != removed_source);
                    assert(pre_pending[old_j2].0 >= flush_base);
                    if (pending@[j2].0 as int) < next {
                        assert(chunk_outputs(original[s2]).len() > 0);
                        // the entry's first record would sit inside the
                        // chunk just flushed, and two chunks never carry
                        // the same record
                        assert(chunk_covers(original[s2], pending@[j2].0 as int));
                        assert(chunk_covers(original[removed_source], pending@[j2].0 as int));
                        if s2 < removed_source {
                            assert(chunk_start(original[s2]) + chunk_outputs(original[s2]).len()
                                <= chunk_start(original[removed_source]) || chunk_start(
                                original[removed_source],
                            ) + chunk_outputs(original[removed_source]).len() <= chunk_start(
                                original[s2],
                            ));
                        } else {
                            assert(chunk_start(original[removed_source]) + chunk_outputs(
                                original[removed_source],
                            ).len() <= chunk_start(original[s2]) || chunk_start(original[s2])
                                + chunk_outputs(original[s2]).len() <= chunk_start(
                                original[removed_source],
                            ));
                        }
                        assert(false);
                    }
                }
                assert forall|k: int| next <= k < total implies #[trigger] held_covers(
                    original,
                    sources,
                    k,
                ) by {
                    assert(held_covers(original, pre_sources, k));
                    let old_j = choose|old_j: int|
                        0 <= old_j < pre_sources.len() && chunk_covers(
                            original[#[trigger] pre_sources[old_j]],
                            k,
                        );
                    if old_j == found {
                        assert(k < chunk_start(original[removed_source]) + chunk_outputs(
                            original[removed_source],
                        ).len());
                        assert(false);
                    } else {
                        let j2 = if old_j < found {
                            old_j
                        } else {
                            old_j - 1
                        };
                        assert(sources[j2] == pre_sources[old_j]);
                        assert(chunk_covers(original[sources[j2]], k));
                    }
                }
            }
        }
    }
    if pending.len() > 0 {
        proof {
            assert forall|total: int|
                0 <= total <= usize::MAX implies !chunks_tile(original, total) by {
                if chunks_tile(original, total) {
                    if (next as int) < total {
                        assert(held_covers(original, sources, next as int));
                        let j = choose|j: int|
                            0 <= j < sources.len() && chunk_covers(
                                original[#[trigger] sources[j]],
                                next as int,
                            );
                        assert(pending_entry_ok(original, sources[j], pending@[j]));
                        assert(pending@[j].0 >= next);
                        assert(chunk_start(original[sources[j]]) <= next as int);
                        assert(pending@[j].0 != next);
                        assert(false);
                    } else {
                        let s0 = sources[0];
                        assert(pending_entry_ok(original, s0, pending@[0]));
                        assert(original[s0] is Done);
                        assert(chunk_outputs(original[s0]).len() > 0);
                        assert(chunk_start(original[s0]) + chunk_outputs(original[s0]).len()
                            <= total);
                        assert(pending@[0].0 >= next >= total);
                        assert(false);
                    }
                }
            }
            if chunks_disjoint(original) {
                // the record at `next` is carried by no chunk: a chunk
                // carrying it would still be buffered, and its entry would
                // have matched `next` in the flush scan
                assert(!stream_covers(original, next as int)) by {
                    if stream_covers(original, next as int) {
                        let ci = choose|ci: int|
                            0 <= ci < original.len() && chunk_covers(
                                #[trigger] original[ci],
                                next as int,
                            );
                        assert(chunk_start(original[ci]) + chunk_outputs(original[ci]).len()
                            > next as int);
                        let j = choose|j: int|
                            0 <= j < sources.len() && #[trigger] sources[j] == ci;
                        assert(pending_entry_ok(original, sources[j], pending@[j]));
                        assert(pending@[j].0 as int == chunk_start(original[ci]));
                        assert(pending@[j].0 >= next);
                        assert(pending@[j].0 != next);
                        assert(chunk_start(original[ci]) <= next as int);
                        assert(false);
                    }
                }
                assert forall|m: int| stream_gap_at(original, m) implies m == next as int by {
                    if m < next as int {
                        assert(stream_covers(original, m));
                    }
                    if m > next as int {
                        assert(stream_covers(original, next as int));
                    }
                }
            }
        }
        return Err(RunError::OrderingFault { missing: next });
    }
    proof {
        assert forall|total: int|
            0 <= total <= usize::MAX && #[trigger] chunks_tile(original, total) implies out@
            == spec_collected(original, terminator, total) by {
            if (next as int) < total {
                assert(held_covers(original, sources, next as int));
                let j = choose|j: int|
                    0 <= j < sources.len() && chunk_covers(
                        original[#[trigger] sources[j]],
                        next as int,
                    );
                assert(false);
            }
        }
        if chunks_disjoint(original) {
            // everything buffered was flushed, so the stream covers the
            // records below `next` and nothing else: it leaves no gap
            assert forall|m: int| stream_gap_at(original, m) implies false by {
                if m < next as int {
                    assert(stream_covers(original, m));
                } else {
                    let k = choose|k: int| m < k && #[trigger] stream_covers(original, k);
                    let ci = choose|ci: int|
                        0 <= ci < original.len() && chunk_covers(#[trigger] original[ci], k);
                    assert(chunk_start(original[ci]) + chunk_outputs(original[ci]).len()
                        > next as int);
                    let j = choose|j: int|
                        0 <= j < sources.len() && #[trigger] sources[j] == ci;
                    assert(false);
                }
            }
        }
    }
    Ok(out)
}

} // verus!