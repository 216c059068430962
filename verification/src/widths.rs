//! The alignment pre-pass: re-run the split and the selection resolution
//! over every buffered record, and track the widest field and separator
//! seen at each emission position.

use vstd::prelude::*;
use crate::matcher::{find_spans_fancy, find_spans_simple, spans_wf};
use crate::process_chars::{bytes_to_cow_string, spec_decoded_text};
use crate::process_fields::{first_delimiter, last_delimiter, spec_emitted_positions,
    spec_field_unit, spec_filter_fields, spec_has_data, spec_seam_bytes, spec_split_fields,
    split_fields};
use crate::selection::{inverted_of, invert_selections, normalise_selections,
    spec_normalise_selections, SplitError};
use crate::types::{Field, FieldView, InputMode, Instructions, JoinMode, Record, RegexEngine};
use crate::utilities::{display_width, spec_display_width};

verus! {

/// The element at `p`, or zero past the end.
pub open spec fn width_or_zero(widths: Seq<usize>, p: int) -> usize {
    if 0 <= p < widths.len() {
        widths[p]
    } else {
        0
    }
}

/// The element-wise maximum of two width tables, missing entries
/// counting as zero.
pub open spec fn spec_max_widths(a: Seq<usize>, b: Seq<usize>) -> Seq<usize> {
    Seq::new(
        if a.len() >= b.len() {
            a.len()
        } else {
            b.len()
        },
        |p: int|
            if width_or_zero(a, p) >= width_or_zero(b, p) {
                width_or_zero(a, p)
            } else {
                width_or_zero(b, p)
            },
    )
}

/// The running element-wise maxima over a list of width tables.
pub open spec fn spec_max_fold(samples: Seq<Seq<usize>>) -> Seq<usize>
    decreases samples.len(),
{
    if samples.len() == 0 {
        Seq::empty()
    } else {
        spec_max_widths(spec_max_fold(samples.drop_last()), samples.last())
    }
}

/// One more table folds in as one element-wise maximum.
proof fn lemma_max_fold_push(samples: Seq<Seq<usize>>, x: Seq<usize>)
    ensures
        spec_max_fold(samples.push(x)) == spec_max_widths(spec_max_fold(samples), x),
{
    assert(samples.push(x).drop_last() =~= samples);
    assert(samples.push(x).last() == x);
}

/// An empty table changes no maxima.
proof fn lemma_max_widths_empty(a: Seq<usize>)
    ensures
        spec_max_widths(a, Seq::empty()) == a,
{
    assert(spec_max_widths(a, Seq::empty()) =~= a);
}

/// Fold a record's per-position widths into the running maxima: the
/// result at each position is the larger of the two, missing entries
/// counting as zero.
pub fn max_into(running: &mut Vec<usize>, sample: &Vec<usize>)
    ensures
        final(running)@ == spec_max_widths(old(running)@, sample@),
{
    let ghost initial = running@;
    let mut p: usize = 0;
    while p < sample.len()
        invariant
            initial.len() <= running@.len(),
            p <= sample@.len(),
            running@.len() == if initial.len() >= p {
                initial.len() as int
            } else {
                p as int
            },
            forall|q: int| 0 <= q < p ==> #[trigger] running@[q] == if width_or_zero(initial, q)
                >= width_or_zero(sample@, q) {
                width_or_zero(initial, q)
            } else {
                width_or_zero(sample@, q)
            },
            forall|q: int| p <= q < running@.len() ==> #[trigger] running@[q] == initial[q],
        decreases sample@.len() - p,
    {
        if p < running.len() {
            if sample[p] > running[p] {
                let v = sample[p];
                running[p] = v;
            }
        } else {
            running.push(sample[p]);
        }
        p = p + 1;
    }
    proof {
        assert(running@ =~= spec_max_widths(initial, sample@));
    }
}

/// What one record contributes to the width tables over the ranges it
/// will emit: per emitted rank `p`, the display width of the unit
/// emitted there, and — for every rank but the last, since nothing
/// stands after the last — the display width of the separator standing
/// between rank `p` and rank `p + 1`. Tracking stops just short of the
/// address space's end.
pub open spec fn rank_widths_of(
    fields: Seq<FieldView>,
    ranges: Seq<(usize, usize)>,
    join: Option<JoinMode>,
    placeholder: Option<Seq<u8>>,
    invert: bool,
    w: Seq<usize>,
    jw: Seq<usize>,
) -> bool {
    let emitted = spec_emitted_positions(ranges, fields.len() as int, placeholder is Some, invert);
    &&& w.len() <= emitted.len()
    &&& (w.len() < emitted.len() ==> w.len() >= usize::MAX - 1)
    &&& jw.len() == (if w.len() == 0 {
        0int
    } else {
        w.len() - 1
    })
    &&& (forall|p: int| 0 <= p < w.len() ==> #[trigger] w[p] == spec_display_width(
        spec_field_unit(fields, placeholder, emitted[p]),
    ))
    &&& (forall|p: int| 0 <= p < jw.len() ==> #[trigger] jw[p] == spec_display_width(
        spec_seam_bytes(fields, join, emitted[p], emitted[p + 1]),
    ))
}

/// The per-position widths one record contributes: the display width of
/// each emitted unit, and of each separator standing between two
/// consecutive emitted units.
fn record_rank_widths(
    fields: &Vec<Field>,
    ranges: &Vec<(usize, usize)>,
    join: &Option<JoinMode>,
    placeholder: &Option<Vec<u8>>,
    invert: bool,
) -> (r: (Vec<usize>, Vec<usize>))
    requires
        forall|k: int| 0 <= k < ranges@.len() ==> (#[trigger] ranges@[k]).0 <= ranges@[k].1
            < usize::MAX,
    ensures
        rank_widths_of(
            fields.deep_view(),
            ranges@,
            *join,
            placeholder.deep_view(),
            invert,
            r.0@,
            r.1@,
        ),
        r.0@.len() < usize::MAX,
        r.1@.len() < usize::MAX,
{
    let ghost pred = |i: int|
        spec_has_data(
            fields.deep_view().len() as int,
            placeholder.deep_view() is Some,
            invert,
            i,
        );
    let fd = first_delimiter(fields);
    let ld = last_delimiter(fields);
    let mut w: Vec<usize> = Vec::new();
    let mut jw: Vec<usize> = Vec::new();
    let mut any = false;
    let mut prev: usize = 0;
    let mut full = false;
    let ghost mut done: Seq<int> = Seq::empty();
    let ghost mut emitted: Seq<int> = Seq::empty();
    proof {
        assert(Seq::<int>::empty().filter(pred) =~= Seq::<int>::empty());
    }
    let mut k: usize = 0;
    while k < ranges.len()
        invariant
            k <= ranges.len(),
            forall|k2: int| 0 <= k2 < ranges@.len() ==> (#[trigger] ranges@[k2]).0 <= ranges@[k2].1
                < usize::MAX,
            fd@ == crate::process_fields::first_delim(fields.deep_view()),
            ld@ == crate::process_fields::last_delim(fields.deep_view()),
            pred == (|i: int|
                spec_has_data(
                    fields.deep_view().len() as int,
                    placeholder.deep_view() is Some,
                    invert,
                    i,
                )),
            done == crate::compose::ranges_indices(ranges@.take(k as int)),
            emitted == done.filter(pred),
            w@.len() < usize::MAX,
            jw@.len() == (if w@.len() == 0 {
                0int
            } else {
                w@.len() - 1
            }),
            !full ==> w@.len() == emitted.len(),
            full ==> usize::MAX - 1 <= w@.len() <= emitted.len(),
            any == (w@.len() > 0),
            !full && any ==> emitted.last() == prev as int,
            forall|p: int| 0 <= p < w@.len() ==> #[trigger] w@[p] == spec_display_width(
                spec_field_unit(fields.deep_view(), placeholder.deep_view(), emitted[p]),
            ),
            forall|p: int| 0 <= p < jw@.len() ==> #[trigger] jw@[p] == spec_display_width(
                spec_seam_bytes(fields.deep_view(), *join, emitted[p], emitted[p + 1]),
            ),
        decreases ranges.len() - k,
    {
        let (s, e) = ranges[k];
        let ghost range_base = done;
        let mut i: usize = s;
        proof {
            assert(crate::compose::range_indices(s as int, s - 1) =~= Seq::<int>::empty());
            assert(range_base + crate::compose::range_indices(s as int, s - 1) =~= range_base);
        }
        while i <= e
            invariant
                s <= i <= e + 1,
                e < usize::MAX,
                k < ranges@.len(),
                (s, e) == ranges@[k as int],
                forall|k2: int| 0 <= k2 < ranges@.len() ==> (#[trigger] ranges@[k2]).0
                    <= ranges@[k2].1 < usize::MAX,
                fd@ == crate::process_fields::first_delim(fields.deep_view()),
                ld@ == crate::process_fields::last_delim(fields.deep_view()),
                pred == (|i2: int|
                    spec_has_data(
                        fields.deep_view().len() as int,
                        placeholder.deep_view() is Some,
                        invert,
                        i2,
                    )),
                range_base == crate::compose::ranges_indices(ranges@.take(k as int)),
                done == range_base + crate::compose::range_indices(s as int, i - 1),
                emitted == done.filter(pred),
                w@.len() < usize::MAX,
                jw@.len() == (if w@.len() == 0 {
                    0int
                } else {
                    w@.len() - 1
                }),
                !full ==> w@.len() == emitted.len(),
                full ==> usize::MAX - 1 <= w@.len() <= emitted.len(),
                any == (w@.len() > 0),
                !full && any ==> emitted.last() == prev as int,
                forall|p: int| 0 <= p < w@.len() ==> #[trigger] w@[p] == spec_display_width(
                    spec_field_unit(fields.deep_view(), placeholder.deep_view(), emitted[p]),
                ),
                forall|p: int| 0 <= p < jw@.len() ==> #[trigger] jw@[p] == spec_display_width(
                    spec_seam_bytes(fields.deep_view(), *join, emitted[p], emitted[p + 1]),
                ),
            decreases e + 1 - i,
        {
            let ghost pre_done = done;
            let ghost pre_emitted = emitted;
            let has_data = i < fields.len() || (placeholder.is_some() && !invert);
            if has_data && !full {
                if w.len() >= usize::MAX - 1 {
                    full = true;
                } else {
                    if any {
                        let sb = crate::process_fields::seam_bytes(fields, join, &fd, &ld, prev, i);
                        let sw = display_width(&sb);
                        jw.push(sw);
                    }
                    let unit = crate::process_fields::field_unit_vec(fields, placeholder, i);
                    let uw = display_width(&unit);
                    w.push(uw);
                    prev = i;
                    any = true;
                }
            }
            proof {
                done = pre_done.push(i as int);
                pre_done.lemma_filter_push(i as int, pred);
                crate::compose::lemma_range_indices_snoc(s as int, i as int);
                assert(range_base + crate::compose::range_indices(s as int, i - 1 + 1)
                    =~= (range_base + crate::compose::range_indices(s as int, i - 1)).push(
                    i as int,
                ));
                emitted = done.filter(pred);
                if pred(i as int) {
                    assert(emitted =~= pre_emitted.push(i as int));
                    assert(forall|p: int| 0 <= p < pre_emitted.len() ==> #[trigger] emitted[p]
                        == pre_emitted[p]);
                    assert(emitted[pre_emitted.len() as int] == i as int);
                } else {
                    assert(emitted =~= pre_emitted);
                }
            }
            i = i + 1;
        }
        proof {
            assert(ranges@.take(k + 1) =~= ranges@.take(k as int).push(ranges@[k as int]));
            crate::compose::lemma_ranges_indices_snoc(ranges@.take(k as int), ranges@[k as int]);
            assert(done =~= crate::compose::ranges_indices(ranges@.take(k + 1)));
        }
        k = k + 1;
    }
    proof {
        assert(ranges@.take(ranges@.len() as int) =~= ranges@);
    }
    (w, jw)
}

/// Whether scanning can fail for this record stream: only a UTF-8
/// violation under strict checking or a matcher failure.
pub open spec fn scan_error_possible(e: SplitError) -> bool {
    e == SplitError::Utf8 || e == SplitError::MatcherError
}

/// What one already split (and filtered) field list contributes to the
/// scan: nothing when it has no fields, when an empty selection list is
/// inverted, or when its selections cannot be normalised — the real run
/// rejects such a record anyway; otherwise its per-rank width tables
/// over exactly the ranges the real run will emit.
pub open spec fn scan_contrib_of_fields(
    fields: Seq<FieldView>,
    ins: Instructions,
    c: (Seq<usize>, Seq<usize>),
) -> bool {
    if fields.len() == 0 {
        c == (Seq::<usize>::empty(), Seq::<usize>::empty())
    } else if ins.selections@.len() == 0 {
        if ins.invert {
            c == (Seq::<usize>::empty(), Seq::<usize>::empty())
        } else {
            rank_widths_of(
                fields,
                seq![(0usize, (fields.len() - 1) as usize)],
                ins.join,
                ins.placeholder.deep_view(),
                ins.invert,
                c.0,
                c.1,
            )
        }
    } else {
        match spec_normalise_selections(
            ins.selections@,
            fields.len() as usize,
            ins.placeholder.deep_view() is Some,
            ins.strict_bounds,
            ins.strict_range_order,
        ) {
            Err(_) => c == (Seq::<usize>::empty(), Seq::<usize>::empty()),
            Ok(kept) => if !ins.invert {
                rank_widths_of(
                    fields,
                    kept,
                    ins.join,
                    ins.placeholder.deep_view(),
                    ins.invert,
                    c.0,
                    c.1,
                )
            } else {
                exists|inv: Seq<(usize, usize)>|
                    #[trigger] inverted_of(inv, kept, fields.len() as usize) && rank_widths_of(
                        fields,
                        inv,
                        ins.join,
                        ins.placeholder.deep_view(),
                        ins.invert,
                        c.0,
                        c.1,
                    )
            },
        }
    }
}

/// What one record's bytes contribute to the scan: its field list's
/// contribution, over some well-formed span list of the decoded text.
pub open spec fn record_scan_contrib(
    bytes: Seq<u8>,
    ins: Instructions,
    c: (Seq<usize>, Seq<usize>),
) -> bool {
    exists|spans: Seq<(usize, usize)>|
        {
            &&& #[trigger] spans_wf(spans, spec_decoded_text(bytes).len())
            &&& scan_contrib_of_fields(
                spec_filter_fields(
                    spec_split_fields(
                        spec_decoded_text(bytes),
                        spans,
                        ins.input_mode is WholeString,
                    ),
                    ins.skip_empty,
                ),
                ins,
                c,
            )
        }
}

/// What the whole scan returns: the element-wise maxima, rank by rank,
/// of every record's contribution, in record order.
pub open spec fn scan_result_holds(
    records: Seq<Record>,
    ins: Instructions,
    w: Seq<usize>,
    jw: Seq<usize>,
) -> bool {
    exists|ws: Seq<Seq<usize>>, jws: Seq<Seq<usize>>|
        {
            &&& ws.len() == records.len()
            &&& jws.len() == records.len()
            &&& (forall|m: int| 0 <= m < records.len() ==> #[trigger] record_scan_contrib(
                records[m].bytes@,
                ins,
                (ws[m], jws[m]),
            ))
            &&& w == spec_max_fold(ws)
            &&& jw == spec_max_fold(jws)
        }
}

/// The alignment pre-pass: split and resolve every record exactly as
/// the real run will, and keep, per emission position, the largest
/// field display width and the largest separator display width seen
/// across all records. Records whose selections cannot be normalised
/// are skipped, as the real run will reject them anyway.
pub fn get_largest_field_widths(records: &Vec<Record>, instructions: &Instructions) -> (r: Result<
    (Vec<usize>, Vec<usize>),
    SplitError,
>)
    ensures
        match r {
            Ok(widths) => {
                &&& widths.0@.len() < usize::MAX
                &&& widths.1@.len() < usize::MAX
                &&& scan_result_holds(records@, *instructions, widths.0@, widths.1@)
            },
            Err(e) => scan_error_possible(e),
        },
{
    let mut max_widths: Vec<usize> = Vec::new();
    let mut max_join_widths: Vec<usize> = Vec::new();
    let ghost mut ws: Seq<Seq<usize>> = Seq::empty();
    let ghost mut jws: Seq<Seq<usize>> = Seq::empty();
    let mut n: usize = 0;
    while n < records.len()
        invariant
            n <= records@.len(),
            ws.len() == n,
            jws.len() == n,
            forall|m: int| 0 <= m < n ==> #[trigger] record_scan_contrib(
                records@[m].bytes@,
                *instructions,
                (ws[m], jws[m]),
            ),
            max_widths@ == spec_max_fold(ws),
            max_join_widths@ == spec_max_fold(jws),
            max_widths@.len() < usize::MAX,
            max_join_widths@.len() < usize::MAX,
        decreases records.len() - n,
    {
        let record = &records[n];
        let ghost record_index = n as int;
        n = n + 1;
        let text = match bytes_to_cow_string(&record.bytes, instructions.strict_utf8) {
            Ok(t) => t,
            Err(e) => { return Err(e); },
        };
        let spans = match &instructions.regex_engine {
            Some(RegexEngine::Simple(re)) => find_spans_simple(re, &text),
            Some(RegexEngine::Fancy(re)) => match find_spans_fancy(re, &text) {
                Ok(sp) => sp,
                Err(_) => { return Err(SplitError::MatcherError); },
            },
            None => { return Err(SplitError::MatcherError); },
        };
        let whole_string = match instructions.input_mode {
            InputMode::WholeString => true,
            _ => false,
        };
        let fields = split_fields(&text, &spans, whole_string, instructions.skip_empty);
        let ghost gfields = fields.deep_view();
        let ghost gspans = spans@;
        proof {
            assert(spans_wf(gspans, spec_decoded_text(record.bytes@).len()));
            assert(gfields == spec_filter_fields(
                spec_split_fields(
                    spec_decoded_text(record.bytes@),
                    gspans,
                    instructions.input_mode is WholeString,
                ),
                instructions.skip_empty,
            ));
        }
        if fields.len() == 0 {
            proof {
                assert(scan_contrib_of_fields(
                    gfields,
                    *instructions,
                    (Seq::<usize>::empty(), Seq::<usize>::empty()),
                ));
                assert(record_scan_contrib(
                    records@[record_index].bytes@,
                    *instructions,
                    (Seq::<usize>::empty(), Seq::<usize>::empty()),
                ));
                lemma_max_fold_push(ws, Seq::empty());
                lemma_max_widths_empty(spec_max_fold(ws));
                lemma_max_fold_push(jws, Seq::empty());
                lemma_max_widths_empty(spec_max_fold(jws));
                ws = ws.push(Seq::empty());
                jws = jws.push(Seq::empty());
            }
            continue ;
        }

        let ranges: Vec<(usize, usize)> = if instructions.selections.len() == 0 {
            if instructions.invert {
                proof {
                    assert(scan_contrib_of_fields(
                        gfields,
                        *instructions,
                        (Seq::<usize>::empty(), Seq::<usize>::empty()),
                    ));
                    assert(record_scan_contrib(
                        records@[record_index].bytes@,
                        *instructions,
                        (Seq::<usize>::empty(), Seq::<usize>::empty()),
                    ));
                    lemma_max_fold_push(ws, Seq::empty());
                    lemma_max_widths_empty(spec_max_fold(ws));
                    lemma_max_fold_push(jws, Seq::empty());
                    lemma_max_widths_empty(spec_max_fold(jws));
                    ws = ws.push(Seq::empty());
                    jws = jws.push(Seq::empty());
                }
                continue ;
            }
            let mut whole: Vec<(usize, usize)> = Vec::new();
            whole.push((0, fields.len() - 1));
            proof {
                assert(whole@ =~= seq![(0usize, (gfields.len() - 1) as usize)]);
            }
            whole
        } else {
            let kept = match normalise_selections(
                &instructions.selections,
                fields.len(),
                instructions.placeholder.is_some(),
                instructions.strict_bounds,
                instructions.strict_range_order,
            ) {
                Ok(v) => v,
                Err(_) => {
                    proof {
                        assert(scan_contrib_of_fields(
                            gfields,
                            *instructions,
                            (Seq::<usize>::empty(), Seq::<usize>::empty()),
                        ));
                        assert(record_scan_contrib(
                            records@[record_index].bytes@,
                            *instructions,
                            (Seq::<usize>::empty(), Seq::<usize>::empty()),
                        ));
                        lemma_max_fold_push(ws, Seq::empty());
                        lemma_max_widths_empty(spec_max_fold(ws));
                        lemma_max_fold_push(jws, Seq::empty());
                        lemma_max_widths_empty(spec_max_fold(jws));
                        ws = ws.push(Seq::empty());
                        jws = jws.push(Seq::empty());
                    }
                    continue ;
                },
            };
            proof {
                crate::selection::lemma_normalise_ok_length(
                    instructions.selections@,
                    fields@.len() as usize,
                    instructions.placeholder.deep_view() is Some,
                    instructions.strict_bounds,
                    instructions.strict_range_order,
                );
            }
            let ghost gkept = kept@;
            let inverted = if instructions.invert {
                invert_selections(kept, fields.len())
            } else {
                kept
            };
            proof {
                assert forall|k: int| 0 <= k < inverted@.len() implies (#[trigger] inverted@[k]).0
                    <= inverted@[k].1 < usize::MAX by {
                    if instructions.invert {
                        assert(inverted@.contains(inverted@[k]));
                        let x = inverted@[k];
                        if !(x.1 < fields@.len()) {
                            let y = choose|y: (usize, usize)| #[trigger] gkept.contains(y) && x.1
                                <= y.1;
                            let m = choose|m: int| 0 <= m < gkept.len() && gkept[m] == y;
                        }
                    }
                }
            }
            inverted
        };

        let (w, jw) = record_rank_widths(
            &fields,
            &ranges,
            &instructions.join,
            &instructions.placeholder,
            instructions.invert,
        );
        proof {
            if instructions.selections@.len() == 0 {
                assert(ranges@ == seq![(0usize, (gfields.len() - 1) as usize)]);
            } else {
                let kept_spec = spec_normalise_selections(
                    instructions.selections@,
                    gfields.len() as usize,
                    instructions.placeholder.deep_view() is Some,
                    instructions.strict_bounds,
                    instructions.strict_range_order,
                )->Ok_0;
                if instructions.invert {
                    assert(inverted_of(ranges@, kept_spec, gfields.len() as usize));
                    assert(rank_widths_of(
                        gfields,
                        ranges@,
                        instructions.join,
                        instructions.placeholder.deep_view(),
                        instructions.invert,
                        w@,
                        jw@,
                    ));
                } else {
                    assert(ranges@ == kept_spec);
                }
            }
            assert(scan_contrib_of_fields(gfields, *instructions, (w@, jw@)));
            assert(record_scan_contrib(records@[record_index].bytes@, *instructions, (w@, jw@)));
        }
        max_into(&mut max_widths, &w);
        max_into(&mut max_join_widths, &jw);
        proof {
            lemma_max_fold_push(ws, w@);
            lemma_max_fold_push(jws, jw@);
            ws = ws.push(w@);
            jws = jws.push(jw@);
        }
    }
    Ok((max_widths, max_join_widths))
}

/// The scan reads nothing of a record but its bytes, so any record
/// sequence with the same bytes carries the same scan result.
pub proof fn lemma_scan_result_same_bytes(
    a: Seq<Record>,
    b: Seq<Record>,
    ins: Instructions,
    w: Seq<usize>,
    jw: Seq<usize>,
)
    requires
        scan_result_holds(a, ins, w, jw),
        b.len() == a.len(),
        forall|m: int| 0 <= m < a.len() ==> (#[trigger] b[m]).bytes@ == a[m].bytes@,
    ensures
        scan_result_holds(b, ins, w, jw),
{
    let (ws, jws) = choose|ws: Seq<Seq<usize>>, jws: Seq<Seq<usize>>|
        {
            &&& ws.len() == a.len()
            &&& jws.len() == a.len()
            &&& (forall|m: int| 0 <= m < a.len() ==> #[trigger] record_scan_contrib(
                a[m].bytes@,
                ins,
                (ws[m], jws[m]),
            ))
            &&& w == spec_max_fold(ws)
            &&& jw == spec_max_fold(jws)
        };
    assert forall|m: int| 0 <= m < b.len() implies #[trigger] record_scan_contrib(
        b[m].bytes@,
        ins,
        (ws[m], jws[m]),
    ) by {
        assert(b[m].bytes@ == a[m].bytes@);
        assert(record_scan_contrib(a[m].bytes@, ins, (ws[m], jws[m])));
    }
}

/// The field-width half of the alignment pre-pass.
pub fn scan_field_widths(records: &Vec<Record>, instructions: &Instructions) -> (r: Result<
    Vec<usize>,
    SplitError,
>)
    ensures
        match r {
            Ok(widths) => widths@.len() < usize::MAX && exists|jw: Seq<usize>|
                #[trigger] scan_result_holds(records@, *instructions, widths@, jw),
            Err(e) => scan_error_possible(e),
        },
{
    match get_largest_field_widths(records, instructions) {
        Ok((w, jw)) => {
            proof {
                assert(scan_result_holds(records@, *instructions, w@, jw@));
            }
            Ok(w)
        },
        Err(e) => Err(e),
    }
}

} // verus!
