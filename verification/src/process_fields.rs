//! Field mode: the record's text is cut at the matcher's delimiter
//! spans into field/delimiter pairs; selected fields are re-joined under
//! the join policy, with placeholder substitution, optional alignment
//! padding, and strict-return tracking of real content.

use vstd::prelude::*;
use crate::compose::{decimal_bytes, ranges_indices, spec_spaces};
use crate::matcher::{find_spans_fancy, find_spans_simple, spans_wf};
use crate::selection::{inverted_of, invert_selections, normalise_selections,
    spec_normalise_selections, SplitError};
use crate::types::{Align, Field, FieldView, Instructions, InputMode, JoinMode, Record,
    RegexEngine};
use crate::unicode::{graphemes_of, utf8_valid};
use crate::process_chars::{bytes_to_cow_string, spec_decoded_text};
use crate::utilities::{display_width, spec_display_width};

verus! {

/// The field/delimiter pairs carved out by the delimiter spans: each
/// field runs from the cursor to the next span's start, and its
/// delimiter is that span's text.
pub open spec fn mid_fields(text: Seq<u8>, spans: Seq<(usize, usize)>, cursor: int) -> Seq<
    FieldView,
>
    decreases spans.len(),
{
    if spans.len() == 0 {
        Seq::empty()
    } else {
        seq![
            FieldView {
                text: text.subrange(cursor, spans.first().0 as int),
                delimiter: text.subrange(spans.first().0 as int, spans.first().1 as int),
            },
        ] + mid_fields(text, spans.drop_first(), spans.first().1 as int)
    }
}

/// The full field list: the delimiter-trailed fields, then the final
/// field after the last delimiter (dropped in whole-record mode when it
/// is empty).
pub open spec fn spec_split_fields(text: Seq<u8>, spans: Seq<(usize, usize)>, whole_string: bool) -> Seq<
    FieldView,
> {
    let cursor_end: int = if spans.len() == 0 {
        0
    } else {
        spans.last().1 as int
    };
    let mids = mid_fields(text, spans, 0);
    let final_text = text.subrange(cursor_end, text.len() as int);
    if whole_string && final_text.len() == 0 {
        mids
    } else {
        mids + seq![FieldView { text: final_text, delimiter: Seq::empty() }]
    }
}

/// A field that holds at least one byte of text.
pub open spec fn field_has_text(f: FieldView) -> bool {
    f.text.len() > 0
}

/// The field list after the skip-empty policy: fields with empty text
/// are removed before anything counts or selects them.
pub open spec fn spec_filter_fields(fields: Seq<FieldView>, skip_empty: bool) -> Seq<FieldView> {
    if skip_empty {
        fields.filter(|f: FieldView| field_has_text(f))
    } else {
        fields
    }
}

/// One more span at the back adds one more field/delimiter pair.
proof fn lemma_mid_fields_snoc(text: Seq<u8>, spans: Seq<(usize, usize)>, extra: (usize, usize), cursor: int)
    ensures
        mid_fields(text, spans.push(extra), cursor) == mid_fields(text, spans, cursor) + seq![
            FieldView {
                text: text.subrange(
                    if spans.len() == 0 {
                        cursor
                    } else {
                        spans.last().1 as int
                    },
                    extra.0 as int,
                ),
                delimiter: text.subrange(extra.0 as int, extra.1 as int),
            },
        ],
    decreases spans.len(),
{
    if spans.len() == 0 {
        assert(spans.push(extra).first() == extra);
        assert(spans.push(extra).drop_first() =~= spans);
        assert(mid_fields(text, spans, extra.1 as int) =~= Seq::<FieldView>::empty());
        assert(mid_fields(text, spans.push(extra), cursor) =~= mid_fields(text, spans, cursor)
            + seq![
            FieldView {
                text: text.subrange(cursor, extra.0 as int),
                delimiter: text.subrange(extra.0 as int, extra.1 as int),
            },
        ]);
    } else {
        assert(spans.push(extra).first() == spans.first());
        assert(spans.push(extra).drop_first() =~= spans.drop_first().push(extra));
        lemma_mid_fields_snoc(text, spans.drop_first(), extra, spans.first().1 as int);
        assert(spans.drop_first().len() == 0 ==> spans.last() == spans.first());
        assert(spans.drop_first().len() > 0 ==> spans.drop_first().last() == spans.last());
        let head = seq![
            FieldView {
                text: text.subrange(cursor, spans.first().0 as int),
                delimiter: text.subrange(spans.first().0 as int, spans.first().1 as int),
            },
        ];
        let mid = mid_fields(text, spans.drop_first(), spans.first().1 as int);
        let tail = seq![
            FieldView {
                text: text.subrange(
                    if spans.drop_first().len() == 0 {
                        spans.first().1 as int
                    } else {
                        spans.last().1 as int
                    },
                    extra.0 as int,
                ),
                delimiter: text.subrange(extra.0 as int, extra.1 as int),
            },
        ];
        assert(head + (mid + tail) =~= (head + mid) + tail);
    }
}

/// Copy `v[a .. b]` out as a fresh vector.
pub(crate) fn sub_vec(v: &Vec<u8>, a: usize, b: usize) -> (r: Vec<u8>)
    requires
        a <= b <= v@.len(),
    ensures
        r@ == v@.subrange(a as int, b as int),
{
    let mut out: Vec<u8> = Vec::new();
    let mut i: usize = a;
    while i < b
        invariant
            a <= i <= b <= v@.len(),
            out@ == v@.subrange(a as int, i as int),
        decreases b - i,
    {
        out.push(v[i]);
        proof {
            assert(out@ =~= v@.subrange(a as int, i + 1));
        }
        i = i + 1;
    }
    proof {
        assert(out@ =~= v@.subrange(a as int, b as int));
    }
    out
}

/// Cut the record's text at the delimiter spans into field/delimiter
/// pairs, drop a final empty field in whole-record mode, and apply the
/// skip-empty policy.
pub fn split_fields(
    text: &Vec<u8>,
    spans: &Vec<(usize, usize)>,
    whole_string: bool,
    skip_empty: bool,
) -> (r: Vec<Field>)
    requires
        spans_wf(spans@, text@.len()),
    ensures
        r.deep_view() == spec_filter_fields(
            spec_split_fields(text@, spans@, whole_string),
            skip_empty,
        ),
{
    let mut fields: Vec<Field> = Vec::new();
    let mut cursor: usize = 0;
    let mut k: usize = 0;
    while k < spans.len()
        invariant
            k <= spans.len(),
            spans_wf(spans@, text@.len()),
            cursor == if k == 0 {
                0int
            } else {
                spans@[k - 1].1 as int
            },
            cursor <= text@.len(),
            k < spans@.len() ==> cursor <= spans@[k as int].0,
            fields.deep_view() == mid_fields(text@, spans@.take(k as int), 0),
        decreases spans.len() - k,
    {
        let (s, e) = spans[k];
        let ghost pre = fields.deep_view();
        let field_text = sub_vec(text, cursor, s);
        let field_delim = sub_vec(text, s, e);
        fields.push(Field { text: field_text, delimiter: field_delim });
        proof {
            assert(spans@.take(k + 1) =~= spans@.take(k as int).push(spans@[k as int]));
            lemma_mid_fields_snoc(text@, spans@.take(k as int), spans@[k as int], 0);
            assert(k > 0 ==> spans@.take(k as int).last() == spans@[k - 1]);
            assert(fields.deep_view() =~= pre + seq![
                FieldView {
                    text: text@.subrange(cursor as int, s as int),
                    delimiter: text@.subrange(s as int, e as int),
                },
            ]);
        }
        proof {
            if k + 1 < spans@.len() {
                assert(spans@[k + 1 - 1].1 <= spans@[k + 1].0);
            }
        }
        cursor = e;
        k = k + 1;
    }
    proof {
        assert(spans@.take(spans@.len() as int) =~= spans@);
    }
    let final_text = sub_vec(text, cursor, text.len());
    if !(whole_string && final_text.len() == 0) {
        let ghost pre = fields.deep_view();
        fields.push(Field { text: final_text, delimiter: Vec::new() });
        proof {
            assert(fields.deep_view() =~= pre + seq![
                FieldView {
                    text: text@.subrange(cursor as int, text@.len() as int),
                    delimiter: Seq::empty(),
                },
            ]);
        }
    }
    proof {
        assert(fields.deep_view() =~= spec_split_fields(text@, spans@, whole_string));
    }

    if !skip_empty {
        return fields;
    }
    let mut kept: Vec<Field> = Vec::new();
    let mut j: usize = 0;
    while j < fields.len()
        invariant
            j <= fields.len(),
            kept.deep_view() == fields.deep_view().take(j as int).filter(
                |f: FieldView| field_has_text(f),
            ),
        decreases fields.len() - j,
    {
        proof {
            assert(fields.deep_view().take(j + 1) =~= fields.deep_view().take(j as int).push(
                fields.deep_view()[j as int],
            ));
            fields.deep_view().take(j as int).lemma_filter_push(
                fields.deep_view()[j as int],
                |f: FieldView| field_has_text(f),
            );
        }
        if fields[j].text.len() > 0 {
            let ghost pre = kept.deep_view();
            let field_text = sub_vec(&fields[j].text, 0, fields[j].text.len());
            let field_delim = sub_vec(&fields[j].delimiter, 0, fields[j].delimiter.len());
            kept.push(Field { text: field_text, delimiter: field_delim });
            proof {
                assert(field_text@ =~= fields.deep_view()[j as int].text);
                assert(field_delim@ =~= fields.deep_view()[j as int].delimiter);
                assert(kept.deep_view() =~= pre.push(fields.deep_view()[j as int]));
            }
        }
        j = j + 1;
    }
    proof {
        assert(fields.deep_view().take(fields.deep_view().len() as int) =~= fields.deep_view());
    }
    kept
}

/// Everything the field composer's policy depends on, besides the
/// positions it emits.
pub ghost struct FieldComposeCtx {
    pub fields: Seq<FieldView>,
    pub placeholder: Option<Seq<u8>>,
    pub join: Option<JoinMode>,
    pub align: Align,
    pub widths: Seq<usize>,
    pub join_widths: Seq<usize>,
}

/// The delimiter trailing field `i`, empty when no such field exists.
pub open spec fn delim_at(fields: Seq<FieldView>, i: int) -> Seq<u8> {
    if 0 <= i < fields.len() {
        fields[i].delimiter
    } else {
        Seq::empty()
    }
}

/// The first non-empty delimiter anywhere in the record.
pub open spec fn first_delim(fields: Seq<FieldView>) -> Seq<u8>
    decreases fields.len(),
{
    if fields.len() == 0 {
        Seq::empty()
    } else if fields.first().delimiter.len() > 0 {
        fields.first().delimiter
    } else {
        first_delim(fields.drop_first())
    }
}

/// The last non-empty delimiter anywhere in the record.
pub open spec fn last_delim(fields: Seq<FieldView>) -> Seq<u8>
    decreases fields.len(),
{
    if fields.len() == 0 {
        Seq::empty()
    } else if fields.last().delimiter.len() > 0 {
        fields.last().delimiter
    } else {
        last_delim(fields.drop_last())
    }
}

/// What position `i` contributes: the field's text in range, the
/// placeholder (if any) out of range.
pub open spec fn spec_field_unit(fields: Seq<FieldView>, placeholder: Option<Seq<u8>>, i: int) -> Seq<
    u8,
> {
    if 0 <= i < fields.len() {
        fields[i].text
    } else {
        match placeholder {
            Some(p) => p,
            None => Seq::empty(),
        }
    }
}

/// The separator bytes the join policy picks between the emitted unit at
/// position `i` and the next emitted unit at position `next`: an
/// explicit policy wins outright; the default priority is the delimiter
/// after the current field, the delimiter leading the next emitted field
/// (the one trailing the field just before position `next`), the
/// record's first non-empty delimiter, its last, then a single space.
pub open spec fn spec_seam_bytes(
    fields: Seq<FieldView>,
    join: Option<JoinMode>,
    i: int,
    next: int,
) -> Seq<u8> {
    let cur = delim_at(fields, i);
    let lead = delim_at(fields, next - 1);
    let fd = first_delim(fields);
    let ld = last_delim(fields);
    let space = seq![32u8];
    match join {
        Some(JoinMode::String(j)) => j@,
        Some(JoinMode::AfterPrevious) => if cur.len() > 0 {
            cur
        } else {
            space
        },
        Some(JoinMode::BeforeNext) => if lead.len() > 0 {
            lead
        } else {
            space
        },
        Some(JoinMode::First) => if fd.len() > 0 {
            fd
        } else {
            space
        },
        Some(JoinMode::Last) => if ld.len() > 0 {
            ld
        } else {
            space
        },
        Some(JoinMode::Space) => space,
        Some(JoinMode::NoJoin) => Seq::empty(),
        _ => if cur.len() > 0 {
            cur
        } else if lead.len() > 0 {
            lead
        } else if fd.len() > 0 {
            fd
        } else if ld.len() > 0 {
            ld
        } else {
            space
        },
    }
}

/// The padding that brings the unit at position `i`, emitted at rank
/// `p`, up to its column's width — nothing when the column is unknown.
pub open spec fn spec_field_pad(ctx: FieldComposeCtx, i: int, p: int) -> Seq<u8> {
    if 0 <= p < ctx.widths.len() {
        spec_spaces(
            ctx.widths[p] - spec_display_width(spec_field_unit(ctx.fields, ctx.placeholder, i)),
        )
    } else {
        Seq::empty()
    }
}

/// The padding that brings the separator after rank `p` up to its
/// column's widest separator — nothing when the column is unknown.
pub open spec fn spec_join_pad(ctx: FieldComposeCtx, i: int, next: int, p: int) -> Seq<u8> {
    if 0 <= p < ctx.join_widths.len() {
        spec_spaces(
            ctx.join_widths[p] - spec_display_width(
                spec_seam_bytes(ctx.fields, ctx.join, i, next),
            ),
        )
    } else {
        Seq::empty()
    }
}

/// One emitted unit: right alignment pads before the text, every other
/// policy emits the text alone.
pub open spec fn spec_field_item(ctx: FieldComposeCtx, i: int, p: int) -> Seq<u8> {
    let unit = spec_field_unit(ctx.fields, ctx.placeholder, i);
    if ctx.align is Right {
        spec_field_pad(ctx, i, p) + unit
    } else {
        unit
    }
}

/// The full separator between the unit emitted at rank `p` (position
/// `i`) and the next one (position `next`): left alignment pads the
/// field before the separator; squash alignment also pads the separator
/// itself.
pub open spec fn spec_seam_full(ctx: FieldComposeCtx, i: int, next: int, p: int) -> Seq<u8> {
    let seam = spec_seam_bytes(ctx.fields, ctx.join, i, next);
    match ctx.align {
        Align::Left => spec_field_pad(ctx, i, p) + seam,
        Align::Squash => spec_field_pad(ctx, i, p) + seam + spec_join_pad(ctx, i, next, p),
        _ => seam,
    }
}

/// The bytes of the whole emission over the emitted positions `E`, in
/// order: each unit at its rank, with the full separator between
/// consecutive units and none after the last.
pub open spec fn spec_fields_emit(ctx: FieldComposeCtx, emitted: Seq<int>) -> Seq<u8>
    decreases emitted.len(),
{
    if emitted.len() == 0 {
        Seq::empty()
    } else {
        spec_fields_emit(ctx, emitted.drop_last()) + (
        if emitted.len() >= 2 {
            spec_seam_full(
                ctx,
                emitted[emitted.len() - 2],
                emitted[emitted.len() - 1],
                emitted.len() - 2,
            )
        } else {
            Seq::empty()
        }) + spec_field_item(ctx, emitted.last(), emitted.len() - 1)
    }
}

/// Whether position `i` contributes real content: in-range field text
/// that is non-empty. Out-of-range positions never count, so a
/// placeholder substitution is not real content.
pub open spec fn spec_contributes(fields: Seq<FieldView>, i: int) -> bool {
    0 <= i < fields.len() && fields[i].text.len() > 0
}

/// Whether any emitted position contributed real content.
pub open spec fn spec_has_content(fields: Seq<FieldView>, emitted: Seq<int>) -> bool {
    exists|k: int| 0 <= k < emitted.len() && spec_contributes(fields, emitted[k])
}

/// Whether position `i` is emitted at all: in range, or out of range
/// with a placeholder available and no inversion in force.
pub open spec fn spec_has_data(
    fields_len: int,
    placeholder_some: bool,
    invert: bool,
    i: int,
) -> bool {
    i < fields_len || (placeholder_some && !invert)
}

/// The positions a range list emits under the has-data policy.
pub open spec fn spec_emitted_positions(
    ranges: Seq<(usize, usize)>,
    fields_len: int,
    placeholder_some: bool,
    invert: bool,
) -> Seq<int> {
    ranges_indices(ranges).filter(
        |i: int| spec_has_data(fields_len, placeholder_some, invert, i),
    )
}

/// One more emitted position adds its contribution to the content test.
proof fn lemma_has_content_push(fields: Seq<FieldView>, emitted: Seq<int>, x: int)
    ensures
        spec_has_content(fields, emitted.push(x)) == (spec_has_content(fields, emitted)
            || spec_contributes(fields, x)),
{
    if spec_has_content(fields, emitted.push(x)) {
        let k = choose|k: int|
            0 <= k < emitted.push(x).len() && spec_contributes(fields, emitted.push(x)[k]);
        if k < emitted.len() {
            assert(spec_contributes(fields, emitted[k]));
        }
    }
    if spec_has_content(fields, emitted) {
        let k = choose|k: int| 0 <= k < emitted.len() && spec_contributes(fields, emitted[k]);
        assert(emitted.push(x)[k] == emitted[k]);
    }
    if spec_contributes(fields, x) {
        assert(emitted.push(x)[emitted.len() as int] == x);
    }
}

/// Prefixes with no non-empty delimiter do not decide the first one.
proof fn lemma_first_delim_skip(fields: Seq<FieldView>, k: int)
    requires
        0 <= k <= fields.len(),
        forall|t: int| 0 <= t < k ==> (#[trigger] fields[t]).delimiter.len() == 0,
    ensures
        first_delim(fields) == first_delim(fields.skip(k)),
    decreases k,
{
    if k == 0 {
        assert(fields.skip(0) =~= fields);
    } else {
        assert(fields[0].delimiter.len() == 0);
        lemma_first_delim_skip(fields.drop_first(), k - 1);
        assert(fields.drop_first().skip(k - 1) =~= fields.skip(k));
    }
}

/// Suffixes with no non-empty delimiter do not decide the last one.
proof fn lemma_last_delim_take(fields: Seq<FieldView>, k: int)
    requires
        0 <= k <= fields.len(),
        forall|t: int| k <= t < fields.len() ==> (#[trigger] fields[t]).delimiter.len() == 0,
    ensures
        last_delim(fields) == last_delim(fields.take(k)),
    decreases fields.len() - k,
{
    if k == fields.len() {
        assert(fields.take(k) =~= fields);
    } else {
        assert(fields[fields.len() - 1].delimiter.len() == 0);
        assert(fields.drop_last() =~= fields.take(fields.len() - 1));
        lemma_last_delim_take(fields.take(fields.len() - 1), k);
        assert(fields.take(fields.len() - 1).take(k) =~= fields.take(k));
    }
}

/// The first non-empty delimiter anywhere in the record, or nothing.
pub fn first_delimiter(fields: &Vec<Field>) -> (r: Vec<u8>)
    ensures
        r@ == first_delim(fields.deep_view()),
{
    let mut k: usize = 0;
    while k < fields.len()
        invariant
            k <= fields.deep_view().len(),
            forall|t: int| 0 <= t < k ==> (#[trigger] fields.deep_view()[t]).delimiter.len() == 0,
        decreases fields.len() - k,
    {
        if fields[k].delimiter.len() > 0 {
            let r = sub_vec(&fields[k].delimiter, 0, fields[k].delimiter.len());
            proof {
                lemma_first_delim_skip(fields.deep_view(), k as int);
                assert(fields.deep_view().skip(k as int).first() == fields.deep_view()[k as int]);
                assert(r@ =~= fields.deep_view()[k as int].delimiter);
            }
            return r;
        }
        k = k + 1;
    }
    proof {
        lemma_first_delim_skip(fields.deep_view(), fields.deep_view().len() as int);
        assert(fields.deep_view().skip(fields.deep_view().len() as int) =~= Seq::<
            FieldView,
        >::empty());
    }
    Vec::new()
}

/// The last non-empty delimiter anywhere in the record, or nothing.
pub fn last_delimiter(fields: &Vec<Field>) -> (r: Vec<u8>)
    ensures
        r@ == last_delim(fields.deep_view()),
{
    let mut k: usize = fields.len();
    while k > 0
        invariant
            k <= fields.deep_view().len(),
            forall|t: int| k <= t < fields.deep_view().len() ==> (
            #[trigger] fields.deep_view()[t]).delimiter.len() == 0,
        decreases k,
    {
        if fields[k - 1].delimiter.len() > 0 {
            let r = sub_vec(&fields[k - 1].delimiter, 0, fields[k - 1].delimiter.len());
            proof {
                lemma_last_delim_take(fields.deep_view(), k as int);
                assert(fields.deep_view().take(k as int).last() == fields.deep_view()[k - 1]);
                assert(r@ =~= fields.deep_view()[k - 1].delimiter);
            }
            return r;
        }
        k = k - 1;
    }
    proof {
        lemma_last_delim_take(fields.deep_view(), 0);
        assert(fields.deep_view().take(0) =~= Seq::<FieldView>::empty());
    }
    Vec::new()
}

/// The delimiter trailing the given field position, empty when the
/// position lies outside the record.
pub fn get_current_delimiter(field_index: usize, fields: &Vec<Field>) -> (r: Vec<u8>)
    ensures
        r@ == delim_at(fields.deep_view(), field_index as int),
{
    if field_index < fields.len() {
        let r = sub_vec(&fields[field_index].delimiter, 0, fields[field_index].delimiter.len());
        proof {
            assert(r@ =~= fields.deep_view()[field_index as int].delimiter);
        }
        r
    } else {
        Vec::new()
    }
}

/// What the given position contributes: the field's text, or the
/// placeholder out of range, or nothing.
pub(crate) fn field_unit_vec(fields: &Vec<Field>, placeholder: &Option<Vec<u8>>, i: usize) -> (r: Vec<u8>)
    ensures
        r@ == spec_field_unit(fields.deep_view(), placeholder.deep_view(), i as int),
{
    if i < fields.len() {
        let r = sub_vec(&fields[i].text, 0, fields[i].text.len());
        proof {
            assert(r@ =~= fields.deep_view()[i as int].text);
        }
        r
    } else {
        match placeholder {
            Some(p) => {
                let r = sub_vec(p, 0, p.len());
                proof {
                    assert(r@ =~= p@);
                }
                r
            },
            None => Vec::new(),
        }
    }
}

/// The separator the join policy picks between the emitted position `i`
/// and the next emitted position `next`, with the record's first and
/// last non-empty delimiters handed in.
pub(crate) fn seam_bytes(
    fields: &Vec<Field>,
    join: &Option<JoinMode>,
    fd: &Vec<u8>,
    ld: &Vec<u8>,
    i: usize,
    next: usize,
) -> (r: Vec<u8>)
    requires
        fd@ == first_delim(fields.deep_view()),
        ld@ == last_delim(fields.deep_view()),
    ensures
        r@ == spec_seam_bytes(fields.deep_view(), *join, i as int, next as int),
{
    let cur = get_current_delimiter(i, fields);
    let lead = if next >= 1 {
        get_current_delimiter(next - 1, fields)
    } else {
        proof {
            assert(delim_at(fields.deep_view(), next - 1) =~= Seq::<u8>::empty());
        }
        Vec::new()
    };
    let mut space: Vec<u8> = Vec::new();
    space.push(32);
    proof {
        assert(space@ =~= seq![32u8]);
    }
    match join {
        Some(JoinMode::String(j)) => sub_vec(j, 0, j.len()),
        Some(JoinMode::AfterPrevious) => if cur.len() > 0 {
            cur
        } else {
            space
        },
        Some(JoinMode::BeforeNext) => if lead.len() > 0 {
            lead
        } else {
            space
        },
        Some(JoinMode::First) => if fd.len() > 0 {
            sub_vec(fd, 0, fd.len())
        } else {
            space
        },
        Some(JoinMode::Last) => if ld.len() > 0 {
            sub_vec(ld, 0, ld.len())
        } else {
            space
        },
        Some(JoinMode::Space) => space,
        Some(JoinMode::NoJoin) => Vec::new(),
        _ => if cur.len() > 0 {
            cur
        } else if lead.len() > 0 {
            lead
        } else if fd.len() > 0 {
            sub_vec(fd, 0, fd.len())
        } else if ld.len() > 0 {
            sub_vec(ld, 0, ld.len())
        } else {
            space
        },
    }
}

/// `n` spaces.
fn spaces(n: usize) -> (r: Vec<u8>)
    ensures
        r@ == spec_spaces(n as int),
{
    let mut out: Vec<u8> = Vec::new();
    let mut i: usize = 0;
    while i < n
        invariant
            i <= n,
            out@ == spec_spaces(i as int),
        decreases n - i,
    {
        out.push(32);
        proof {
            assert(out@ =~= spec_spaces(i + 1));
        }
        i = i + 1;
    }
    out
}

/// The padding that brings the unit at position `i`, emitted at rank
/// `p`, up to its column's width.
fn field_pad(
    fields: &Vec<Field>,
    placeholder: &Option<Vec<u8>>,
    join: &Option<JoinMode>,
    align: Align,
    field_widths: &Vec<usize>,
    join_widths: &Vec<usize>,
    i: usize,
    p: usize,
) -> (r: Vec<u8>)
    ensures
        ({
            let ctx = FieldComposeCtx {
                fields: fields.deep_view(),
                placeholder: placeholder.deep_view(),
                join: *join,
                align,
                widths: field_widths@,
                join_widths: join_widths@,
            };
            r@ == spec_field_pad(ctx, i as int, p as int)
        }),
{
    if p < field_widths.len() {
        let unit = field_unit_vec(fields, placeholder, i);
        let w = display_width(&unit);
        let target = field_widths[p];
        if target > w {
            spaces(target - w)
        } else {
            proof {
                assert(spec_spaces(field_widths@[p as int] - spec_display_width(
                    spec_field_unit(fields.deep_view(), placeholder.deep_view(), i as int),
                )) =~= Seq::<u8>::empty());
            }
            Vec::new()
        }
    } else {
        Vec::new()
    }
}

/// The full separator between the unit emitted at rank `p` (position
/// `i`) and the next one (position `next`), built per the alignment
/// policy.
fn seam_full_vec(
    fields: &Vec<Field>,
    placeholder: &Option<Vec<u8>>,
    join: &Option<JoinMode>,
    align: Align,
    field_widths: &Vec<usize>,
    join_widths: &Vec<usize>,
    fd: &Vec<u8>,
    ld: &Vec<u8>,
    i: usize,
    next: usize,
    p: usize,
) -> (r: Vec<u8>)
    requires
        fd@ == first_delim(fields.deep_view()),
        ld@ == last_delim(fields.deep_view()),
    ensures
        ({
            let ctx = FieldComposeCtx {
                fields: fields.deep_view(),
                placeholder: placeholder.deep_view(),
                join: *join,
                align,
                widths: field_widths@,
                join_widths: join_widths@,
            };
            r@ == spec_seam_full(ctx, i as int, next as int, p as int)
        }),
{
    let ghost ctx = FieldComposeCtx {
        fields: fields.deep_view(),
        placeholder: placeholder.deep_view(),
        join: *join,
        align,
        widths: field_widths@,
        join_widths: join_widths@,
    };
    let sb = seam_bytes(fields, join, fd, ld, i, next);
    match align {
        Align::Left => {
            let mut out = field_pad(fields, placeholder, join, align, field_widths, join_widths, i, p);
            out.extend_from_slice(sb.as_slice());
            proof {
                assert(out@ =~= spec_seam_full(ctx, i as int, next as int, p as int));
            }
            out
        },
        Align::Squash => {
            let mut out = field_pad(fields, placeholder, join, align, field_widths, join_widths, i, p);
            out.extend_from_slice(sb.as_slice());
            let jpad: Vec<u8> = if p < join_widths.len() {
                let sw = display_width(&sb);
                let target = join_widths[p];
                if target > sw {
                    spaces(target - sw)
                } else {
                    proof {
                        assert(spec_join_pad(ctx, i as int, next as int, p as int) =~= Seq::<
                            u8,
                        >::empty());
                    }
                    Vec::new()
                }
            } else {
                Vec::new()
            };
            out.extend_from_slice(jpad.as_slice());
            proof {
                assert(out@ =~= spec_seam_full(ctx, i as int, next as int, p as int));
            }
            out
        },
        _ => {
            proof {
                assert(sb@ =~= spec_seam_full(ctx, i as int, next as int, p as int));
            }
            sb
        },
    }
}

/// One emitted unit at rank `p`: right alignment pads before the text.
fn field_item_vec(
    fields: &Vec<Field>,
    placeholder: &Option<Vec<u8>>,
    join: &Option<JoinMode>,
    align: Align,
    field_widths: &Vec<usize>,
    join_widths: &Vec<usize>,
    i: usize,
    p: usize,
) -> (r: Vec<u8>)
    ensures
        ({
            let ctx = FieldComposeCtx {
                fields: fields.deep_view(),
                placeholder: placeholder.deep_view(),
                join: *join,
                align,
                widths: field_widths@,
                join_widths: join_widths@,
            };
            r@ == spec_field_item(ctx, i as int, p as int)
        }),
{
    let ghost ctx = FieldComposeCtx {
        fields: fields.deep_view(),
        placeholder: placeholder.deep_view(),
        join: *join,
        align,
        widths: field_widths@,
        join_widths: join_widths@,
    };
    let unit = field_unit_vec(fields, placeholder, i);
    if align == Align::Right {
        let mut out = field_pad(fields, placeholder, join, align, field_widths, join_widths, i, p);
        out.extend_from_slice(unit.as_slice());
        proof {
            assert(out@ =~= spec_field_item(ctx, i as int, p as int));
        }
        out
    } else {
        unit
    }
}

/// Ranks at or past both width tables pad nothing, so any two such ranks
/// give the same separator and the same item.
proof fn lemma_rank_saturates(ctx: FieldComposeCtx, i: int, next: int, p1: int, p2: int)
    requires
        p1 >= ctx.widths.len() && p1 >= ctx.join_widths.len(),
        p2 >= ctx.widths.len() && p2 >= ctx.join_widths.len(),
    ensures
        spec_seam_full(ctx, i, next, p1) == spec_seam_full(ctx, i, next, p2),
        spec_field_item(ctx, i, p1) == spec_field_item(ctx, i, p2),
{
}

/// Emit the fields over the resolved ranges under the join, placeholder
/// and alignment policy. Returns the output bytes and whether any
/// emitted unit contributed real content (non-empty field text or a
/// placeholder substitution) for strict-return evaluation.
#[verifier::rlimit(60)]
pub fn compose_fields(
    fields: &Vec<Field>,
    ranges: &Vec<(usize, usize)>,
    join: &Option<JoinMode>,
    placeholder: &Option<Vec<u8>>,
    invert: bool,
    align: Align,
    field_widths: &Vec<usize>,
    join_widths: &Vec<usize>,
) -> (res: (Vec<u8>, bool))
    requires
        forall|k: int| 0 <= k < ranges@.len() ==> (#[trigger] ranges@[k]).0 <= ranges@[k].1
            < usize::MAX,
        field_widths@.len() < usize::MAX,
        join_widths@.len() < usize::MAX,
    ensures
        ({
            let ctx = FieldComposeCtx {
                fields: fields.deep_view(),
                placeholder: placeholder.deep_view(),
                join: *join,
                align,
                widths: field_widths@,
                join_widths: join_widths@,
            };
            let emitted = spec_emitted_positions(
                ranges@,
                fields.deep_view().len() as int,
                placeholder.deep_view() is Some,
                invert,
            );
            &&& res.0@ == spec_fields_emit(ctx, emitted)
            &&& res.1 == spec_has_content(fields.deep_view(), emitted)
        }),
{
    let ghost ctx = FieldComposeCtx {
        fields: fields.deep_view(),
        placeholder: placeholder.deep_view(),
        join: *join,
        align,
        widths: field_widths@,
        join_widths: join_widths@,
    };
    let ghost pred = |i: int|
        spec_has_data(
            fields.deep_view().len() as int,
            placeholder.deep_view() is Some,
            invert,
            i,
        );
    let fd = first_delimiter(fields);
    let ld = last_delimiter(fields);
    // ranks only matter below the width tables' lengths: the running rank
    // is clamped just past them, where padding is empty either way
    let cap: usize = if field_widths.len() > join_widths.len() {
        field_widths.len() + 1
    } else {
        join_widths.len() + 1
    };
    let mut out: Vec<u8> = Vec::new();
    let mut content = false;
    let mut any = false;
    let mut prev: usize = 0;
    let mut rank: usize = 0;
    let ghost mut done: Seq<int> = Seq::empty();
    let ghost mut emitted: Seq<int> = Seq::empty();
    proof {
        assert(Seq::<int>::empty().filter(pred) =~= Seq::<int>::empty());
    }
    let mut k: usize = 0;
    while k < ranges.len()
        invariant
            k <= ranges.len(),
            forall|k2: int| 0 <= k2 < ranges@.len() ==> (#[trigger] ranges@[k2]).0 <= ranges@[k2].1
                < usize::MAX,
            fd@ == first_delim(fields.deep_view()),
            ld@ == last_delim(fields.deep_view()),
            cap == if field_widths@.len() > join_widths@.len() {
                field_widths@.len() + 1
            } else {
                join_widths@.len() + 1
            },
            ctx == (FieldComposeCtx {
                fields: fields.deep_view(),
                placeholder: placeholder.deep_view(),
                join: *join,
                align,
                widths: field_widths@,
                join_widths: join_widths@,
            }),
            pred == (|i: int|
                spec_has_data(
                    fields.deep_view().len() as int,
                    placeholder.deep_view() is Some,
                    invert,
                    i,
                )),
            done == ranges_indices(ranges@.take(k as int)),
            emitted == done.filter(pred),
            rank == if emitted.len() <= cap {
                emitted.len() as int
            } else {
                cap as int
            },
            any == (emitted.len() > 0),
            any ==> emitted.last() == prev as int,
            out@ == spec_fields_emit(ctx, emitted),
            content == spec_has_content(fields.deep_view(), emitted),
        decreases ranges.len() - k,
    {
        let (s, e) = ranges[k];
        let ghost range_base = done;
        let mut i: usize = s;
        proof {
            assert(crate::compose::range_indices(s as int, s - 1) =~= Seq::<int>::empty());
            assert(range_base + crate::compose::range_indices(s as int, s - 1) =~= range_base);
        }
        while i <= e
            invariant
                s <= i <= e + 1,
                e < usize::MAX,
                k < ranges@.len(),
                (s, e) == ranges@[k as int],
                forall|k2: int| 0 <= k2 < ranges@.len() ==> (#[trigger] ranges@[k2]).0
                    <= ranges@[k2].1 < usize::MAX,
                fd@ == first_delim(fields.deep_view()),
                ld@ == last_delim(fields.deep_view()),
                cap == if field_widths@.len() > join_widths@.len() {
                    field_widths@.len() + 1
                } else {
                    join_widths@.len() + 1
                },
                ctx == (FieldComposeCtx {
                    fields: fields.deep_view(),
                    placeholder: placeholder.deep_view(),
                    join: *join,
                    align,
                    widths: field_widths@,
                    join_widths: join_widths@,
                }),
                pred == (|i2: int|
                    spec_has_data(
                        fields.deep_view().len() as int,
                        placeholder.deep_view() is Some,
                        invert,
                        i2,
                    )),
                range_base == ranges_indices(ranges@.take(k as int)),
                done == range_base + crate::compose::range_indices(s as int, i - 1),
                emitted == done.filter(pred),
                rank == if emitted.len() <= cap {
                    emitted.len() as int
                } else {
                    cap as int
                },
                any == (emitted.len() > 0),
                any ==> emitted.last() == prev as int,
                out@ == spec_fields_emit(ctx, emitted),
                content == spec_has_content(fields.deep_view(), emitted),
            decreases e + 1 - i,
        {
            let ghost pre_done = done;
            let ghost pre_emitted = emitted;
            let has_data = i < fields.len() || (placeholder.is_some() && !invert);
            if has_data {
                if any {
                    let rank_prev = rank - 1;
                    let seam = seam_full_vec(
                        fields,
                        placeholder,
                        join,
                        align,
                        field_widths,
                        join_widths,
                        &fd,
                        &ld,
                        prev,
                        i,
                        rank_prev,
                    );
                    out.extend_from_slice(seam.as_slice());
                    proof {
                        if rank_prev as int != pre_emitted.len() - 1 {
                            lemma_rank_saturates(
                                ctx,
                                prev as int,
                                i as int,
                                rank_prev as int,
                                pre_emitted.len() - 1,
                            );
                        }
                        assert(seam@ == spec_seam_full(
                            ctx,
                            prev as int,
                            i as int,
                            pre_emitted.len() - 1,
                        ));
                    }
                }
                let item = field_item_vec(
                    fields,
                    placeholder,
                    join,
                    align,
                    field_widths,
                    join_widths,
                    i,
                    rank,
                );
                out.extend_from_slice(item.as_slice());
                proof {
                    if rank as int != pre_emitted.len() {
                        lemma_rank_saturates(ctx, i as int, 0, rank as int, pre_emitted.len() as int);
                    }
                    assert(item@ == spec_field_item(ctx, i as int, pre_emitted.len() as int));
                }
                if i < fields.len() {
                    if fields[i].text.len() > 0 {
                        content = true;
                    }
                }
                proof {
                    emitted = pre_emitted.push(i as int);
                    lemma_has_content_push(fields.deep_view(), pre_emitted, i as int);
                    assert(emitted.drop_last() =~= pre_emitted);
                    assert(emitted.last() == i as int);
                    if pre_emitted.len() > 0 {
                        assert(emitted[emitted.len() - 2] == pre_emitted.last());
                    }
                    assert(out@ =~= spec_fields_emit(ctx, emitted));
                }
                prev = i;
                any = true;
                if rank < cap {
                    rank = rank + 1;
                }
            }
            proof {
                done = pre_done.push(i as int);
                pre_done.lemma_filter_push(i as int, pred);
                crate::compose::lemma_range_indices_snoc(s as int, i as int);
                assert(range_base + crate::compose::range_indices(s as int, i - 1 + 1)
                    =~= (range_base + crate::compose::range_indices(s as int, i - 1)).push(
                    i as int,
                ));
                assert(emitted =~= done.filter(pred));
            }
            i = i + 1;
        }
        proof {
            assert(ranges@.take(k + 1) =~= ranges@.take(k as int).push(ranges@[k as int]));
            crate::compose::lemma_ranges_indices_snoc(ranges@.take(k as int), ranges@[k as int]);
            assert(done =~= ranges_indices(ranges@.take(k + 1)));
        }
        k = k + 1;
    }
    proof {
        assert(ranges@.take(ranges@.len() as int) =~= ranges@);
    }
    (out, content)
}

/// The result view of an exec result, for contracts.
pub open spec fn res_view(r: Result<Vec<u8>, SplitError>) -> Result<Seq<u8>, SplitError> {
    match r {
        Ok(v) => Ok(v@),
        Err(e) => Err(e),
    }
}

/// The output once fields are composed: no real content under strict
/// return checking is an error.
pub open spec fn spec_finish_fields(out: Seq<u8>, has_content: bool, strict_return: bool) -> Result<
    Seq<u8>,
    SplitError,
> {
    if strict_return && !has_content {
        Err(SplitError::EmptyResult)
    } else {
        Ok(out)
    }
}

/// The result of field mode on an already split (and filtered) field
/// list, on every input whose selections are not inverted — `None`
/// marks the inverted paths, whose exact range list
/// `process_split_fields` states separately.
pub open spec fn spec_process_split_fields(
    fields: Seq<FieldView>,
    selections: Seq<(i32, i32)>,
    invert: bool,
    placeholder: Option<Seq<u8>>,
    join: Option<JoinMode>,
    align: Align,
    widths: Seq<usize>,
    join_widths: Seq<usize>,
    count: bool,
    strict_return: bool,
    strict_bounds: bool,
    strict_range_order: bool,
) -> Option<Result<Seq<u8>, SplitError>> {
    let ctx = FieldComposeCtx { fields, placeholder, join, align, widths, join_widths };
    if count {
        Some(Ok(crate::compose::spec_decimal(fields.len())))
    } else if fields.len() == 0 {
        if strict_return {
            Some(Err(SplitError::EmptyResult))
        } else if strict_bounds && selections.len() > 0 {
            Some(Err(SplitError::EmptyBounds))
        } else {
            Some(Ok(Seq::empty()))
        }
    } else if selections.len() == 0 {
        if invert {
            Some(spec_finish_fields(Seq::empty(), false, strict_return))
        } else {
            let whole = seq![(0usize, (fields.len() - 1) as usize)];
            let emitted = spec_emitted_positions(
                whole,
                fields.len() as int,
                placeholder is Some,
                invert,
            );
            Some(
                spec_finish_fields(
                    spec_fields_emit(ctx, emitted),
                    spec_has_content(fields, emitted),
                    strict_return,
                ),
            )
        }
    } else {
        match spec_normalise_selections(
            selections,
            fields.len() as usize,
            placeholder is Some,
            strict_bounds,
            strict_range_order,
        ) {
            Err(e) => Some(Err(e)),
            Ok(kept) => if !invert {
                let emitted = spec_emitted_positions(
                    kept,
                    fields.len() as int,
                    placeholder is Some,
                    invert,
                );
                Some(
                    spec_finish_fields(
                        spec_fields_emit(ctx, emitted),
                        spec_has_content(fields, emitted),
                        strict_return,
                    ),
                )
            } else {
                None
            },
        }
    }
}

/// What field mode returns for a given field list and result: exact on
/// every non-inverted path, and on inverted paths exact over some range
/// list that inverts the normalised selections.
pub open spec fn fields_result_holds(
    fields: Seq<FieldView>,
    selections: Seq<(i32, i32)>,
    invert: bool,
    placeholder: Option<Seq<u8>>,
    join: Option<JoinMode>,
    align: Align,
    widths: Seq<usize>,
    join_widths: Seq<usize>,
    count: bool,
    strict_return: bool,
    strict_bounds: bool,
    strict_range_order: bool,
    r: Result<Seq<u8>, SplitError>,
) -> bool {
    match spec_process_split_fields(
        fields,
        selections,
        invert,
        placeholder,
        join,
        align,
        widths,
        join_widths,
        count,
        strict_return,
        strict_bounds,
        strict_range_order,
    ) {
        Some(expected) => r == expected,
        None => exists|inv: Seq<(usize, usize)>|
            {
                &&& #[trigger] inverted_of(
                    inv,
                    spec_normalise_selections(
                        selections,
                        fields.len() as usize,
                        placeholder is Some,
                        strict_bounds,
                        strict_range_order,
                    )->Ok_0,
                    fields.len() as usize,
                )
                &&& r == spec_finish_fields(
                    spec_fields_emit(
                        FieldComposeCtx { fields, placeholder, join, align, widths, join_widths },
                        spec_emitted_positions(
                            inv,
                            fields.len() as int,
                            placeholder is Some,
                            invert,
                        ),
                    ),
                    spec_has_content(
                        fields,
                        spec_emitted_positions(
                            inv,
                            fields.len() as int,
                            placeholder is Some,
                            invert,
                        ),
                    ),
                    strict_return,
                )
            },
    }
}

/// Process an already split field list: count mode renders the field
/// count; otherwise the normalised (and, on request, inverted) ranges
/// are composed under the join, placeholder and alignment policy, and a
/// record without real content under strict return checking is an error.
#[verifier::rlimit(60)]
pub fn process_split_fields(
    instructions: &Instructions,
    fields: &Vec<Field>,
    field_widths: &Vec<usize>,
    join_widths: &Vec<usize>,
) -> (r: Result<Vec<u8>, SplitError>)
    requires
        field_widths@.len() < usize::MAX,
        join_widths@.len() < usize::MAX,
    ensures
        fields_result_holds(
            fields.deep_view(),
            instructions.selections@,
            instructions.invert,
            instructions.placeholder.deep_view(),
            instructions.join,
            instructions.align,
            field_widths@,
            join_widths@,
            instructions.count,
            instructions.strict_return,
            instructions.strict_bounds,
            instructions.strict_range_order,
            res_view(r),
        ),
{
    let field_count = fields.len();
    if instructions.count {
        return Ok(decimal_bytes(field_count));
    }
    if field_count == 0 {
        if instructions.strict_return {
            return Err(SplitError::EmptyResult);
        }
        if instructions.strict_bounds && instructions.selections.len() > 0 {
            return Err(SplitError::EmptyBounds);
        }
        return Ok(Vec::new());
    }
    if instructions.selections.len() == 0 {
        if instructions.invert {
            if instructions.strict_return {
                return Err(SplitError::EmptyResult);
            }
            return Ok(Vec::new());
        }
        let mut whole: Vec<(usize, usize)> = Vec::new();
        whole.push((0, field_count - 1));
        proof {
            assert(whole@ =~= seq![(0usize, (field_count - 1) as usize)]);
        }
        let (out, has_content) = compose_fields(
            fields,
            &whole,
            &instructions.join,
            &instructions.placeholder,
            instructions.invert,
            instructions.align,
            field_widths,
            join_widths,
        );
        if instructions.strict_return && !has_content {
            return Err(SplitError::EmptyResult);
        }
        return Ok(out);
    }

    let kept = match normalise_selections(
        &instructions.selections,
        field_count,
        instructions.placeholder.is_some(),
        instructions.strict_bounds,
        instructions.strict_range_order,
    ) {
        Ok(v) => v,
        Err(e) => { return Err(e); },
    };

    proof {
        crate::selection::lemma_normalise_ok_length(
            instructions.selections@,
            field_count,
            instructions.placeholder.deep_view() is Some,
            instructions.strict_bounds,
            instructions.strict_range_order,
        );
    }
    let ghost gkept = kept@;
    let ranges = if instructions.invert {
        invert_selections(kept, field_count)
    } else {
        kept
    };
    proof {
        assert forall|k: int| 0 <= k < ranges@.len() implies (#[trigger] ranges@[k]).0
            <= ranges@[k].1 < usize::MAX by {
            if instructions.invert {
                assert(ranges@.contains(ranges@[k]));
                let x = ranges@[k];
                if !(x.1 < field_count) {
                    let y = choose|y: (usize, usize)| #[trigger] gkept.contains(y) && x.1 <= y.1;
                    let m = choose|m: int| 0 <= m < gkept.len() && gkept[m] == y;
                }
            }
        }
    }

    let (out, has_content) = compose_fields(
        fields,
        &ranges,
        &instructions.join,
        &instructions.placeholder,
        instructions.invert,
        instructions.align,
        field_widths,
        join_widths,
    );
    if instructions.strict_return && !has_content {
        Err(SplitError::EmptyResult)
    } else {
        Ok(out)
    }
}

/// The width table a record carries, empty when it carries none.
pub open spec fn widths_view(w: Option<Vec<usize>>) -> Seq<usize> {
    match w {
        Some(v) => v@,
        None => Seq::empty(),
    }
}

/// What `process_fields` promises of a record's bytes and width tables:
/// a UTF-8 error exactly on invalid input under strict checking;
/// otherwise the exact field-mode result over some well-formed span
/// list — or a matcher error, which only the backtracking engine can
/// produce (the plain engine cannot fail mid-scan).
pub open spec fn process_fields_holds(
    instructions: Instructions,
    engine: RegexEngine,
    bytes: Seq<u8>,
    field_widths: Seq<usize>,
    join_widths: Seq<usize>,
    r: Result<Seq<u8>, SplitError>,
) -> bool {
    if instructions.strict_utf8 && !utf8_valid(bytes) {
        r == Err::<Seq<u8>, SplitError>(SplitError::Utf8)
    } else {
        ||| (engine is Fancy && r == Err::<Seq<u8>, SplitError>(SplitError::MatcherError))
        ||| exists|spans: Seq<(usize, usize)>|
            {
                &&& #[trigger] spans_wf(spans, spec_decoded_text(bytes).len())
                &&& fields_result_holds(
                    spec_filter_fields(
                        spec_split_fields(
                            spec_decoded_text(bytes),
                            spans,
                            instructions.input_mode is WholeString,
                        ),
                        instructions.skip_empty,
                    ),
                    instructions.selections@,
                    instructions.invert,
                    instructions.placeholder.deep_view(),
                    instructions.join,
                    instructions.align,
                    field_widths,
                    join_widths,
                    instructions.count,
                    instructions.strict_return,
                    instructions.strict_bounds,
                    instructions.strict_range_order,
                    r,
                )
            }
    }
}

/// Process one record in field mode: decode the bytes (strictly or
/// lossily), find the delimiter spans with the compiled matcher, cut the
/// text into fields, and compose the selected fields. A matcher that
/// fails mid-scan is a hard record error, possible only with the
/// backtracking engine; everything after the spans is exact over them.
pub fn process_fields(instructions: &Instructions, engine: &RegexEngine, record: Record) -> (r:
    Result<Vec<u8>, SplitError>)
    requires
        record.field_widths matches Some(w) ==> w@.len() < usize::MAX,
        record.join_widths matches Some(w) ==> w@.len() < usize::MAX,
    ensures
        process_fields_holds(
            *instructions,
            *engine,
            record.bytes@,
            widths_view(record.field_widths),
            widths_view(record.join_widths),
            res_view(r),
        ),
{
    let text = match bytes_to_cow_string(&record.bytes, instructions.strict_utf8) {
        Ok(t) => t,
        Err(e) => { return Err(e); },
    };

    let spans = match engine {
        RegexEngine::Simple(re) => find_spans_simple(re, &text),
        RegexEngine::Fancy(re) => match find_spans_fancy(re, &text) {
            Ok(s) => s,
            Err(_) => { return Err(SplitError::MatcherError); },
        },
    };

    let whole_string = match instructions.input_mode {
        InputMode::WholeString => true,
        _ => false,
    };
    let fields = split_fields(&text, &spans, whole_string, instructions.skip_empty);

    let empty_widths: Vec<usize> = Vec::new();
    let r = match (&record.field_widths, &record.join_widths) {
        (Some(w), Some(jw)) => process_split_fields(instructions, &fields, w, jw),
        (Some(w), None) => process_split_fields(instructions, &fields, w, &empty_widths),
        (None, Some(jw)) => process_split_fields(instructions, &fields, &empty_widths, jw),
        (None, None) => process_split_fields(instructions, &fields, &empty_widths, &empty_widths),
    };
    proof {
        assert(spans_wf(spans@, text@.len()));
    }
    r
}

} // verus!