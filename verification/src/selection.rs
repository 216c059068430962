//! Selection algebra: resolving 1-based / from-the-end raw selections into
//! 0-based inclusive ranges, normalising whole selection lists, and
//! inverting a list of ranges into its complement.

use vstd::prelude::*;

verus! {

/// Why a record could not be processed.
#[derive(Clone, Copy, Debug, PartialEq, Eq, Structural)]
pub enum SplitError {
    /// A raw index of zero was given while strict bounds checking is on;
    /// selections are 1-based.
    InvalidIndex,
    /// A selection's resolved start lies after its resolved end while strict
    /// range order checking is on.
    RangeOrder { raw_start: i32, raw_end: i32 },
    /// A resolved index lies outside the unit sequence while strict bounds
    /// checking is on. `single` records whether the selection named one
    /// index (distinct wording) and `at_end` whether the end bound failed.
    OutOfBounds { raw: i32, len: usize, single: bool, at_end: bool },
    /// Strict bounds checking is on and the record has no units at all.
    EmptyBounds,
    /// The record is not valid UTF-8 and strict UTF-8 checking is on.
    Utf8,
    /// Strict return checking is on and no unit contributed real content.
    EmptyResult,
    /// The delimiter matcher failed while scanning a record.
    MatcherError,
    /// The unit count exceeds the signed 32-bit range, so from-the-end
    /// indices cannot be resolved.
    IndexOverflow,
}

/// Resolution of a raw 1-based index against a unit count: positive raw
/// values are 1-based from the front, non-positive values count from the
/// end (`-1` is the last unit, `0` resolves to `len`).
pub open spec fn spec_resolve(raw: i32, len: usize) -> int {
    if raw > 0 {
        raw - 1
    } else {
        len + raw
    }
}

/// Translate a raw 1-based index to a 0-based one; non-positive values
/// count back from `len`. Fails when `len` exceeds the signed 32-bit
/// range, which from-the-end resolution needs.
pub fn resolve_index(raw_index: i32, len: usize) -> (r: Result<i32, SplitError>)
    ensures
        match r {
            Ok(v) => len <= i32::MAX && v == spec_resolve(raw_index, len),
            Err(e) => len > i32::MAX && e == SplitError::IndexOverflow,
        },
{
    if len > i32::MAX as usize {
        return Err(SplitError::IndexOverflow);
    }
    if raw_index > 0 {
        Ok(raw_index - 1)
    } else {
        Ok(len as i32 + raw_index)
    }
}

/// Clamp a resolved index into `[0, length - 1]` (`[0, 0]` when the record
/// has no units).
pub open spec fn spec_clamp(x: int, length: usize) -> int {
    let top = if length == 0 { 0int } else { length - 1 };
    if x < 0 {
        0
    } else if x > top {
        top
    } else {
        x
    }
}

/// A resolved index with its negative part cut off.
pub open spec fn spec_clamp_low(x: int) -> int {
    if x < 0 {
        0
    } else {
        x
    }
}

/// What `normalise_selection` returns: `Err` for a strict-mode violation or
/// an oversized record, `Ok(None)` for a selection that is silently
/// dropped, and `Ok(Some((start, end)))` for a 0-based inclusive range.
pub open spec fn spec_normalise_selection(
    raw_start: i32,
    raw_end: i32,
    length: usize,
    has_placeholder: bool,
    strict_bounds: bool,
    strict_range_order: bool,
) -> Result<Option<(usize, usize)>, SplitError> {
    if strict_bounds && (raw_start == 0 || raw_end == 0) {
        Err(SplitError::InvalidIndex)
    } else if length > i32::MAX {
        Err(SplitError::IndexOverflow)
    } else {
        let start = spec_resolve(raw_start, length);
        let end = spec_resolve(raw_end, length);
        if start > end {
            if strict_range_order {
                Err(SplitError::RangeOrder { raw_start, raw_end })
            } else {
                Ok(None)
            }
        } else if strict_bounds {
            if length == 0 {
                Err(SplitError::EmptyBounds)
            } else if !(0 <= start < length) {
                Err(SplitError::OutOfBounds {
                    raw: raw_start,
                    len: length,
                    single: raw_start == raw_end,
                    at_end: false,
                })
            } else if !(0 <= end < length) {
                Err(SplitError::OutOfBounds { raw: raw_end, len: length, single: false, at_end: true })
            } else {
                Ok(Some((start as usize, end as usize)))
            }
        } else {
            if end < 0 {
                Ok(None)
            } else if has_placeholder {
                Ok(Some((spec_clamp_low(start) as usize, spec_clamp_low(end) as usize)))
            } else if length == 0 || start >= length {
                Ok(None)
            } else {
                Ok(Some((spec_clamp(start, length) as usize, spec_clamp(end, length) as usize)))
            }
        }
    }
}

/// Resolve and validate one raw selection against a unit count of `length`.
///
/// Strict modes turn zero indices, reversed ranges and out-of-range bounds
/// into errors. Lenient mode drops a selection whose resolved end lies
/// before the first unit (and every selection against a record with no
/// units), and clamps the rest into range; with a placeholder available,
/// an out-of-range start is preserved instead, so the composer can
/// substitute the placeholder.
///
/// For every selection handled leniently without a placeholder, the result
/// is either a range fully inside `[0, length)` or `None` (never an
/// error when the unit count fits the signed 32-bit range).
pub fn normalise_selection(
    raw_start: i32,
    raw_end: i32,
    length: usize,
    is_placeholder: bool,
    strict_bounds: bool,
    strict_range_order: bool,
) -> (r: Result<Option<(usize, usize)>, SplitError>)
    ensures
        r == spec_normalise_selection(
            raw_start,
            raw_end,
            length,
            is_placeholder,
            strict_bounds,
            strict_range_order,
        ),
        !strict_bounds && !strict_range_order && length <= i32::MAX ==> r is Ok,
        match r {
            Ok(Some(range)) => {
                &&& range.0 <= range.1 <= i32::MAX
                &&& !is_placeholder ==> range.0 <= range.1 < length
            },
            _ => true,
        },
{
    if strict_bounds && (raw_start == 0 || raw_end == 0) {
        return Err(SplitError::InvalidIndex);
    }

    let start = match resolve_index(raw_start, length) {
        Ok(v) => v,
        Err(e) => { return Err(e); },
    };
    let end = match resolve_index(raw_end, length) {
        Ok(v) => v,
        Err(e) => { return Err(e); },
    };

    if start > end {
        if strict_range_order {
            return Err(SplitError::RangeOrder { raw_start, raw_end });
        } else {
            return Ok(None);
        }
    }

    if strict_bounds {
        if length == 0 {
            return Err(SplitError::EmptyBounds);
        }
        if start < 0 || start >= length as i32 {
            return Err(SplitError::OutOfBounds {
                raw: raw_start,
                len: length,
                single: raw_start == raw_end,
                at_end: false,
            });
        }
        if end < 0 || end >= length as i32 {
            return Err(SplitError::OutOfBounds { raw: raw_end, len: length, single: false, at_end: true });
        }
        Ok(Some((start as usize, end as usize)))
    } else {
        if end < 0 {
            return Ok(None);
        }
        if is_placeholder {
            let clamped_start: i32 = if start < 0 { 0 } else { start };
            let clamped_end: i32 = if end < 0 { 0 } else { end };
            Ok(Some((clamped_start as usize, clamped_end as usize)))
        } else if length == 0 || start >= length as i32 {
            Ok(None)
        } else {
            let max_index: i32 = if length == 0 { 0 } else { (length - 1) as i32 };
            let clamped_start: i32 = if start < 0 { 0 } else if start > max_index { max_index } else { start };
            let clamped_end: i32 = if end < 0 { 0 } else if end > max_index { max_index } else { end };
            Ok(Some((clamped_start as usize, clamped_end as usize)))
        }
    }
}

/// Normalisation of a whole selection list: the first error wins; dropped
/// selections disappear; the rest keep their order.
pub open spec fn spec_normalise_selections(
    selections: Seq<(i32, i32)>,
    length: usize,
    has_placeholder: bool,
    strict_bounds: bool,
    strict_range_order: bool,
) -> Result<Seq<(usize, usize)>, SplitError>
    decreases selections.len(),
{
    if selections.len() == 0 {
        Ok(Seq::empty())
    } else {
        let head = spec_normalise_selections(
            selections.drop_last(),
            length,
            has_placeholder,
            strict_bounds,
            strict_range_order,
        );
        let last = selections.last();
        match head {
            Err(e) => Err(e),
            Ok(kept) => match spec_normalise_selection(
                last.0,
                last.1,
                length,
                has_placeholder,
                strict_bounds,
                strict_range_order,
            ) {
                Err(e) => Err(e),
                Ok(Some(range)) => Ok(kept.push(range)),
                Ok(None) => Ok(kept),
            },
        }
    }
}

/// An error in some prefix of the list settles the whole list.
proof fn lemma_normalise_selections_prefix_err(
    selections: Seq<(i32, i32)>,
    cut: int,
    length: usize,
    has_placeholder: bool,
    strict_bounds: bool,
    strict_range_order: bool,
)
    requires
        0 <= cut <= selections.len(),
        spec_normalise_selections(
            selections.take(cut),
            length,
            has_placeholder,
            strict_bounds,
            strict_range_order,
        ) is Err,
    ensures
        spec_normalise_selections(
            selections,
            length,
            has_placeholder,
            strict_bounds,
            strict_range_order,
        ) == spec_normalise_selections(
            selections.take(cut),
            length,
            has_placeholder,
            strict_bounds,
            strict_range_order,
        ),
    decreases selections.len(),
{
    if cut == selections.len() {
        assert(selections.take(cut) =~= selections);
    } else {
        assert(selections.drop_last().take(cut) =~= selections.take(cut));
        lemma_normalise_selections_prefix_err(
            selections.drop_last(),
            cut,
            length,
            has_placeholder,
            strict_bounds,
            strict_range_order,
        );
    }
}

/// Normalise every selection in the list against a unit count of `length`,
/// keeping the order and dropping the selections that lenient mode drops.
/// The first strict-mode violation ends the pass with that error.
pub fn normalise_selections(
    selections: &Vec<(i32, i32)>,
    length: usize,
    is_placeholder: bool,
    is_strict_bounds: bool,
    is_strict_range_order: bool,
) -> (r: Result<Vec<(usize, usize)>, SplitError>)
    ensures
        match r {
            Ok(v) => Ok::<Seq<(usize, usize)>, SplitError>(v@) == spec_normalise_selections(
                selections@,
                length,
                is_placeholder,
                is_strict_bounds,
                is_strict_range_order,
            ),
            Err(e) => Err::<Seq<(usize, usize)>, SplitError>(e) == spec_normalise_selections(
                selections@,
                length,
                is_placeholder,
                is_strict_bounds,
                is_strict_range_order,
            ),
        },
        match r {
            Ok(v) => {
                &&& forall|k: int| 0 <= k < v@.len() ==> (#[trigger] v@[k]).0 <= v@[k].1 <= i32::MAX
                &&& !is_placeholder ==> forall|k: int|
                    0 <= k < v@.len() ==> (#[trigger] v@[k]).0 <= v@[k].1 < length
            },
            Err(_) => true,
        },
{
    let mut kept: Vec<(usize, usize)> = Vec::new();
    let mut index: usize = 0;
    while index < selections.len()
        invariant
            index <= selections.len(),
            Ok::<Seq<(usize, usize)>, SplitError>(kept@) == spec_normalise_selections(
                selections@.take(index as int),
                length,
                is_placeholder,
                is_strict_bounds,
                is_strict_range_order,
            ),
            forall|k: int| 0 <= k < kept@.len() ==> (#[trigger] kept@[k]).0 <= kept@[k].1
                <= i32::MAX,
            !is_placeholder ==> forall|k: int|
                0 <= k < kept@.len() ==> (#[trigger] kept@[k]).0 <= kept@[k].1 < length,
        decreases selections.len() - index,
    {
        let (raw_start, raw_end) = selections[index];
        proof {
            assert(selections@.take(index + 1).drop_last() =~= selections@.take(index as int));
            assert(selections@.take(index + 1).last() == selections@[index as int]);
        }
        match normalise_selection(
            raw_start,
            raw_end,
            length,
            is_placeholder,
            is_strict_bounds,
            is_strict_range_order,
        ) {
            Ok(Some(range)) => {
                kept.push(range);
            },
            Ok(None) => {},
            Err(e) => {
                proof {
                    lemma_normalise_selections_prefix_err(
                        selections@,
                        index + 1,
                        length,
                        is_placeholder,
                        is_strict_bounds,
                        is_strict_range_order,
                    );
                }
                return Err(e);
            },
        }
        index = index + 1;
    }
    proof {
        assert(selections@.take(selections@.len() as int) =~= selections@);
    }
    Ok(kept)
}

/// A normalised list that came out without an error had every selection
/// resolved, so the unit count fits the signed 32-bit range.
pub proof fn lemma_normalise_ok_length(
    selections: Seq<(i32, i32)>,
    length: usize,
    has_placeholder: bool,
    strict_bounds: bool,
    strict_range_order: bool,
)
    requires
        selections.len() > 0,
        spec_normalise_selections(
            selections,
            length,
            has_placeholder,
            strict_bounds,
            strict_range_order,
        ) is Ok,
    ensures
        length <= i32::MAX,
{
    let last = selections.last();
    assert(spec_normalise_selection(
        last.0,
        last.1,
        length,
        has_placeholder,
        strict_bounds,
        strict_range_order,
    ) is Ok || spec_normalise_selections(
        selections,
        length,
        has_placeholder,
        strict_bounds,
        strict_range_order,
    ) is Err);
}

/// Whether some range in the list covers position `i` (inclusive bounds).
pub open spec fn covers(ranges: Seq<(usize, usize)>, i: int) -> bool {
    exists|r: (usize, usize)| #[trigger] ranges.contains(r) && r.0 <= i <= r.1
}

/// Ranges in ascending order, pairwise disjoint — each one ends strictly
/// before the next begins — and each with its start at or before its end.
pub open spec fn ranges_disjoint_increasing(ranges: Seq<(usize, usize)>) -> bool {
    &&& forall|k: int| 0 <= k < ranges.len() ==> (#[trigger] ranges[k]).0 <= ranges[k].1
    &&& forall|k: int, l: int| 0 <= k < l < ranges.len() ==> (#[trigger] ranges[k]).1
        < (#[trigger] ranges[l]).0
}

/// Lexicographic order on ranges: by start, then by end.
pub open spec fn range_lex_le(a: (usize, usize), b: (usize, usize)) -> bool {
    a.0 < b.0 || (a.0 == b.0 && a.1 <= b.1)
}

/// Arrange the ranges by start (ties by end), keeping exactly the same
/// collection of ranges, so the same positions stay covered.
fn sort_ranges(ranges: &Vec<(usize, usize)>) -> (r: Vec<(usize, usize)>)
    ensures
        r@.len() == ranges@.len(),
        forall|k: int, l: int| 0 <= k < l < r@.len() ==> range_lex_le(#[trigger] r@[k], #[trigger] r@[l]),
        forall|x: (usize, usize)| r@.contains(x) <==> ranges@.contains(x),
{
    let mut sorted: Vec<(usize, usize)> = Vec::new();
    let mut index: usize = 0;
    while index < ranges.len()
        invariant
            index <= ranges.len(),
            sorted@.len() == index,
            forall|k: int, l: int| 0 <= k < l < sorted@.len() ==> range_lex_le(
                #[trigger] sorted@[k],
                #[trigger] sorted@[l],
            ),
            forall|x: (usize, usize)| sorted@.contains(x) <==> ranges@.take(index as int).contains(
                x,
            ),
        decreases ranges.len() - index,
    {
        let element = ranges[index];
        let ghost pre = sorted@;
        let mut position: usize = sorted.len();
        while position > 0 && !range_lex_le_exec(sorted[position - 1], element)
            invariant
                position <= sorted@.len(),
                sorted@ == pre,
                forall|k: int| position <= k < sorted@.len() ==> !range_lex_le(
                    #[trigger] sorted@[k],
                    element,
                ),
            decreases position,
        {
            position = position - 1;
        }
        sorted.insert(position, element);
        proof {
            pre.insert_ensures(position as int, element);
            assert(ranges@.take(index + 1).drop_last() =~= ranges@.take(index as int));
            assert(ranges@.take(index + 1).last() == ranges@[index as int]);
            assert forall|y: (usize, usize)| ranges@.take(index as int).contains(y) implies #[trigger] ranges@.take(
                index + 1,
            ).contains(y) by {
                let j = choose|j: int|
                    0 <= j < ranges@.take(index as int).len() && ranges@.take(index as int)[j] == y;
                assert(ranges@.take(index + 1)[j] == y);
            }
            assert forall|k: int, l: int| 0 <= k < l < sorted@.len() implies range_lex_le(
                #[trigger] sorted@[k],
                #[trigger] sorted@[l],
            ) by {
                if k < position && l == position {
                    assert(sorted@[k] == pre[k]);
                    if k < position - 1 {
                        assert(range_lex_le(pre[k], pre[position - 1]));
                    }
                    assert(range_lex_le(pre[position - 1], element));
                } else if k == position && l > position {
                    assert(sorted@[l] == pre[l - 1]);
                    assert(!range_lex_le(pre[l - 1], element));
                } else if k < position && l > position {
                    assert(sorted@[k] == pre[k] && sorted@[l] == pre[l - 1]);
                    assert(!range_lex_le(pre[l - 1], element));
                    if k < position - 1 {
                        assert(range_lex_le(pre[k], pre[position - 1]));
                    }
                    assert(range_lex_le(pre[position - 1], element));
                } else {
                }
            }
            assert forall|x: (usize, usize)| sorted@.contains(x) implies ranges@.take(
                index + 1,
            ).contains(x) by {
                let k = choose|k: int| 0 <= k < sorted@.len() && sorted@[k] == x;
                if k < position {
                    assert(pre[k] == x);
                    assert(pre.contains(x));
                } else if k == position {
                    assert(x == element);
                    assert(ranges@.take(index + 1)[index as int] == element);
                } else {
                    assert(pre[k - 1] == x);
                    assert(pre.contains(x));
                }
                assert(forall|y: (usize, usize)| pre.contains(y) ==> #[trigger] ranges@.take(
                    index + 1,
                ).contains(y));
            }
            assert forall|x: (usize, usize)| ranges@.take(index + 1).contains(x) implies sorted@
                .contains(x) by {
                if x == element {
                    assert(sorted@[position as int] == x);
                } else {
                    let k = choose|k: int|
                        0 <= k < ranges@.take(index + 1).len() && #[trigger] ranges@.take(
                            index + 1,
                        )[k] == x;
                    assert(ranges@.take(index as int)[k] == x);
                    assert(pre.contains(x));
                    let l = choose|l: int| 0 <= l < pre.len() && pre[l] == x;
                    if l < position {
                        assert(sorted@[l] == x);
                    } else {
                        assert(sorted@[l + 1] == x);
                    }
                }
            }
        }
        index = index + 1;
    }
    proof {
        assert(ranges@.take(ranges@.len() as int) =~= ranges@);
    }
    sorted
}

/// Decide `range_lex_le` on concrete ranges.
fn range_lex_le_exec(a: (usize, usize), b: (usize, usize)) -> (r: bool)
    ensures
        r == range_lex_le(a, b),
{
    a.0 < b.0 || (a.0 == b.0 && a.1 <= b.1)
}

/// Appending one range extends the covered positions by exactly that range.
proof fn lemma_covers_push(ranges: Seq<(usize, usize)>, extra: (usize, usize), i: int)
    ensures
        covers(ranges.push(extra), i) <==> covers(ranges, i) || (extra.0 <= i <= extra.1),
{
    broadcast use vstd::seq_lib::lemma_seq_contains_after_push;

    if covers(ranges.push(extra), i) {
        let r = choose|r: (usize, usize)| #[trigger] ranges.push(extra).contains(r) && r.0 <= i
            <= r.1;
        if r != extra {
            assert(ranges.contains(r));
        }
    }
    if covers(ranges, i) {
        let r = choose|r: (usize, usize)| #[trigger] ranges.contains(r) && r.0 <= i <= r.1;
        assert(ranges.push(extra).contains(r));
    }
    if extra.0 <= i <= extra.1 {
        assert(ranges.push(extra).contains(extra));
    }
}

/// A non-empty range list covers what its front covers plus what its last
/// range covers.
proof fn lemma_covers_unsnoc(ranges: Seq<(usize, usize)>, i: int)
    requires
        ranges.len() > 0,
    ensures
        covers(ranges, i) <==> covers(ranges.drop_last(), i) || (ranges.last().0 <= i
            <= ranges.last().1),
{
    assert(ranges =~= ranges.drop_last().push(ranges.last()));
    lemma_covers_push(ranges.drop_last(), ranges.last(), i);
}

/// One more range taken from the front extends the coverage by that range.
proof fn lemma_covers_take_succ(ranges: Seq<(usize, usize)>, j: int, i: int)
    requires
        0 <= j < ranges.len(),
    ensures
        covers(ranges.take(j + 1), i) <==> covers(ranges.take(j), i) || (ranges[j].0 <= i
            <= ranges[j].1),
{
    assert(ranges.take(j + 1) =~= ranges.take(j).push(ranges[j]));
    lemma_covers_push(ranges.take(j), ranges[j], i);
}

/// Fuse overlapping ranges of a sorted list into one range each, so that
/// the same positions stay covered but the ranges stand strictly apart.
fn merge_ranges(sorted: &Vec<(usize, usize)>) -> (r: Vec<(usize, usize)>)
    requires
        forall|k: int| 0 <= k < sorted@.len() ==> (#[trigger] sorted@[k]).0 <= sorted@[k].1,
        forall|k: int, l: int| 0 <= k < l < sorted@.len() ==> range_lex_le(
            #[trigger] sorted@[k],
            #[trigger] sorted@[l],
        ),
    ensures
        ranges_disjoint_increasing(r@),
        forall|i: int| covers(r@, i) <==> covers(sorted@, i),
        forall|x: (usize, usize)| #[trigger] r@.contains(x) ==> exists|y: (usize, usize)|
            #[trigger] sorted@.contains(y) && y.0 == x.0,
        forall|x: (usize, usize)| #[trigger] r@.contains(x) ==> exists|y: (usize, usize)|
            #[trigger] sorted@.contains(y) && y.1 == x.1,
{
    broadcast use vstd::seq_lib::lemma_seq_contains_after_push;

    let mut merged: Vec<(usize, usize)> = Vec::new();
    let mut j: usize = 0;
    while j < sorted.len()
        invariant
            j <= sorted.len(),
            forall|k: int| 0 <= k < sorted@.len() ==> (#[trigger] sorted@[k]).0 <= sorted@[k].1,
            forall|k: int, l: int| 0 <= k < l < sorted@.len() ==> range_lex_le(
                #[trigger] sorted@[k],
                #[trigger] sorted@[l],
            ),
            ranges_disjoint_increasing(merged@),
            forall|i: int| covers(merged@, i) <==> covers(sorted@.take(j as int), i),
            forall|x: (usize, usize)| #[trigger] merged@.contains(x) ==> exists|y: (usize, usize)|
                #[trigger] sorted@.take(j as int).contains(y) && y.0 == x.0,
            forall|x: (usize, usize)| #[trigger] merged@.contains(x) ==> exists|y: (usize, usize)|
                #[trigger] sorted@.take(j as int).contains(y) && y.1 == x.1,
            merged@.len() == 0 ==> j == 0 || sorted@.len() == 0,
            j > 0 && sorted@.len() > 0 ==> merged@.len() > 0,
        decreases sorted.len() - j,
    {
        let (start, end) = sorted[j];
        proof {
            assert forall|y: (usize, usize)| #[trigger] sorted@.take(j as int).contains(y) implies sorted@.take(
                j + 1,
            ).contains(y) by {
                let m = choose|m: int|
                    0 <= m < j && #[trigger] sorted@.take(j as int)[m] == y;
                assert(sorted@.take(j + 1)[m] == y);
            }
            assert(sorted@.take(j + 1)[j as int] == sorted@[j as int]);
            assert(sorted@.take(j + 1).contains(sorted@[j as int]));
        }
        let mut extend_last = false;
        if merged.len() > 0 {
            let (last_start, last_end) = merged[merged.len() - 1];
            if start <= last_end {
                extend_last = true;
                let new_end = if end > last_end { end } else { last_end };
                let ghost pre = merged@;
                let _ = merged.pop();
                merged.push((last_start, new_end));
                proof {
                    assert(merged@ =~= pre.drop_last().push((last_start, new_end)));
                    // the start of the merged group comes from an earlier element,
                    // whose start is at or before the start now scanned
                    assert(pre.last() == (last_start, last_end));
                    assert(pre.contains(pre.last()));
                    let ys = choose|y: (usize, usize)| #[trigger] sorted@.take(
                        j as int,
                    ).contains(y) && y.0 == last_start;
                    let m = choose|m: int|
                        0 <= m < j && #[trigger] sorted@.take(j as int)[m] == ys;
                    assert(sorted@[m] == ys);
                    assert(range_lex_le(sorted@[m], sorted@[j as int]));
                    assert(last_start <= start);
                    assert forall|i: int| covers(merged@, i) <==> covers(
                        sorted@.take(j + 1),
                        i,
                    ) by {
                        let updated = pre.drop_last().push((last_start, new_end));
                        assert(merged@ == updated);
                        lemma_covers_push(pre.drop_last(), (last_start, new_end), i);
                        lemma_covers_unsnoc(pre, i);
                        lemma_covers_take_succ(sorted@, j as int, i);
                        assert(covers(pre, i) <==> covers(sorted@.take(j as int), i));
                    }
                    assert forall|x: (usize, usize)| #[trigger] merged@.contains(x) implies exists|
                        y: (usize, usize),
                    | #[trigger] sorted@.take(j + 1).contains(y) && y.0 == x.0 by {
                        if x == (last_start, new_end) {
                            assert(sorted@.take(j + 1).contains(ys) && ys.0 == x.0);
                        } else {
                            assert(pre.drop_last().contains(x));
                            assert(pre.contains(x));
                        }
                    }
                    assert forall|x: (usize, usize)| #[trigger] merged@.contains(x) implies exists|
                        y: (usize, usize),
                    | #[trigger] sorted@.take(j + 1).contains(y) && y.1 == x.1 by {
                        if x == (last_start, new_end) {
                            if new_end == end {
                                assert(sorted@.take(j + 1).contains(sorted@[j as int])
                                    && sorted@[j as int].1 == x.1);
                            } else {
                                let ye = choose|y: (usize, usize)| #[trigger] sorted@.take(
                                    j as int,
                                ).contains(y) && y.1 == last_end;
                                assert(sorted@.take(j + 1).contains(ye) && ye.1 == x.1);
                            }
                        } else {
                            assert(pre.drop_last().contains(x));
                            assert(pre.contains(x));
                        }
                    }
                    assert(ranges_disjoint_increasing(merged@)) by {
                        assert forall|k: int, l: int|
                            0 <= k < l < merged@.len() implies (#[trigger] merged@[k]).1 < (
                        #[trigger] merged@[l]).0 by {
                            assert(merged@[k] == pre[k]);
                            assert(pre[k].1 < pre[l].0);
                            assert(merged@[l].0 == pre[l].0);
                        }
                    }
                }
            }
        }
        if !extend_last {
            let ghost pre = merged@;
            merged.push((start, end));
            proof {
                assert forall|i: int| covers(merged@, i) <==> covers(
                    sorted@.take(j + 1),
                    i,
                ) by {
                    lemma_covers_push(pre, (start, end), i);
                    lemma_covers_take_succ(sorted@, j as int, i);
                }
                assert forall|x: (usize, usize)| #[trigger] merged@.contains(x) implies exists|
                    y: (usize, usize),
                | #[trigger] sorted@.take(j + 1).contains(y) && y.0 == x.0 by {
                    if x == (start, end) {
                        assert(sorted@.take(j + 1).contains(sorted@[j as int]));
                    } else {
                        assert(pre.contains(x));
                    }
                }
                assert forall|x: (usize, usize)| #[trigger] merged@.contains(x) implies exists|
                    y: (usize, usize),
                | #[trigger] sorted@.take(j + 1).contains(y) && y.1 == x.1 by {
                    if x == (start, end) {
                        assert(sorted@.take(j + 1).contains(sorted@[j as int]));
                    } else {
                        assert(pre.contains(x));
                    }
                }
                assert(ranges_disjoint_increasing(merged@)) by {
                    assert forall|k: int, l: int|
                        0 <= k < l < merged@.len() implies (#[trigger] merged@[k]).1 < (
                    #[trigger] merged@[l]).0 by {
                        if l < merged@.len() - 1 {
                            assert(merged@[k] == pre[k] && merged@[l] == pre[l]);
                        } else {
                            assert(merged@[l] == (start, end));
                            assert(merged@[k] == pre[k]);
                            if pre.len() > 0 {
                                // the element scanned did not overlap the last
                                // merged range, and earlier ranges end sooner
                                if k < pre.len() - 1 {
                                    assert(pre[k].1 < pre[pre.len() - 1].0);
                                    assert(pre[pre.len() - 1].0 <= pre[pre.len() - 1].1);
                                }
                            }
                        }
                    }
                }
            }
        }
        j = j + 1;
    }
    proof {
        assert(sorted@.take(sorted@.len() as int) =~= sorted@);
    }
    merged
}

/// What `invert_selections` promises of its result `inv` against its
/// input `ranges` and the unit count: the complement coverage inside
/// `[0, length)`, ascending disjoint ranges, end bounds that never
/// exceed both the unit count and every input range's end, and
/// maximality — each result range is flanked by covered positions (or
/// the ends of `[0, length)`), so no result range can be split or
/// extended. Together with the coverage clause this pins the result
/// list exactly: the gaps of the input's coverage, as maximal runs in
/// ascending order.
pub open spec fn inverted_of(
    inv: Seq<(usize, usize)>,
    ranges: Seq<(usize, usize)>,
    length: usize,
) -> bool {
    &&& ranges_disjoint_increasing(inv)
    &&& forall|i: int| 0 <= i < length ==> (covers(inv, i) <==> !covers(ranges, i))
    &&& forall|x: (usize, usize)| #[trigger] inv.contains(x) ==> x.1 < length || exists|
        y: (usize, usize),
    | #[trigger] ranges.contains(y) && x.1 <= y.1
    &&& forall|k: int| 0 <= k < inv.len() ==> ((#[trigger] inv[k]).0 == 0 || covers(
        ranges,
        inv[k].0 - 1,
    ))
    &&& forall|k: int| 0 <= k < inv.len() ==> ((#[trigger] inv[k]).1 + 1 >= length || covers(
        ranges,
        inv[k].1 + 1,
    ))
}

/// Invert a list of resolved ranges against a unit count of `length`:
/// the result covers, inside `[0, length)`, exactly the positions the
/// input does not, as the maximal uncovered runs in ascending order —
/// each flanked by covered positions or the ends of `[0, length)`.
/// When every input range lies inside `[0, length)`, so does every
/// output range.
pub fn invert_selections(normalised_selections: Vec<(usize, usize)>, length: usize) -> (r: Vec<
    (usize, usize),
>)
    requires
        forall|k: int| 0 <= k < normalised_selections@.len() ==> (
        #[trigger] normalised_selections@[k]).0 <= normalised_selections@[k].1,
    ensures
        inverted_of(r@, normalised_selections@, length),
        ranges_disjoint_increasing(r@),
        forall|i: int| 0 <= i < length ==> (covers(r@, i) <==> !covers(
            normalised_selections@,
            i,
        )),
        forall|x: (usize, usize)| #[trigger] r@.contains(x) ==> x.1 < length || exists|
            y: (usize, usize),
        | #[trigger] normalised_selections@.contains(y) && x.1 <= y.1,
{
    broadcast use vstd::seq_lib::lemma_seq_contains_after_push;

    proof {
        assert forall|k: int| 0 <= k < normalised_selections@.len() implies range_lex_le(
            #[trigger] normalised_selections@[k],
            normalised_selections@[k],
        ) by {}
    }
    let sorted = sort_ranges(&normalised_selections);
    proof {
        assert forall|k: int| 0 <= k < sorted@.len() implies (#[trigger] sorted@[k]).0
            <= sorted@[k].1 by {
            assert(sorted@.contains(sorted@[k]));
            assert(normalised_selections@.contains(sorted@[k]));
            let m = choose|m: int|
                0 <= m < normalised_selections@.len() && normalised_selections@[m] == sorted@[k];
        }
    }
    let merged = merge_ranges(&sorted);
    proof {
        assert forall|i: int| covers(merged@, i) <==> covers(normalised_selections@, i) by {
            assert forall|i2: int| covers(sorted@, i2) <==> covers(
                normalised_selections@,
                i2,
            ) by {}
        }
        assert forall|k: int| 0 <= k < merged@.len() implies bound_of_input(
            normalised_selections@,
            #[trigger] merged@[k],
        ) by {
            assert(merged@.contains(merged@[k]));
            let ye = choose|y: (usize, usize)| #[trigger] sorted@.contains(y) && y.1
                == merged@[k].1;
            assert(normalised_selections@.contains(ye));
        }
    }

    let mut inverted: Vec<(usize, usize)> = Vec::new();
    let mut pointer: usize = 0;
    let mut k: usize = 0;
    while k < merged.len()
        invariant
            k <= merged.len(),
            ranges_disjoint_increasing(merged@),
            forall|k2: int| 0 <= k2 < merged@.len() ==> bound_of_input(
                normalised_selections@,
                #[trigger] merged@[k2],
            ),
            ranges_disjoint_increasing(inverted@),
            forall|i: int| covers(inverted@, i) ==> 0 <= i < pointer,
            k < merged@.len() ==> pointer <= merged@[k as int].0,
            forall|k2: int| 0 <= k2 < k ==> (#[trigger] merged@[k2]).1 < pointer || pointer
                == usize::MAX,
            forall|i: int| 0 <= i < pointer ==> (covers(inverted@, i) <==> !covers(merged@, i)),
            (forall|k2: int| 0 <= k2 < inverted@.len() ==> (#[trigger] inverted@[k2]).1
                < pointer),
            forall|x: (usize, usize)| #[trigger] inverted@.contains(x) ==> exists|
                y: (usize, usize),
            | #[trigger] normalised_selections@.contains(y) && x.1 <= y.1,
            pointer == 0 || pointer == usize::MAX || covers(merged@, pointer - 1),
            forall|k2: int| 0 <= k2 < inverted@.len() ==> ((#[trigger] inverted@[k2]).0 == 0
                || covers(merged@, inverted@[k2].0 - 1)),
            forall|k2: int| 0 <= k2 < inverted@.len() ==> covers(
                merged@,
                (#[trigger] inverted@[k2]).1 + 1,
            ),
        decreases merged.len() - k,
    {
        let (start, end) = merged[k];
        let ghost pre = inverted@;
        let ghost pre_pointer = pointer;
        if start > pointer {
            inverted.push((pointer, start - 1));
        }
        pointer = if end < usize::MAX { end + 1 } else { usize::MAX };
        proof {
            assert forall|i: int| 0 <= i < pointer implies (covers(inverted@, i) <==> !covers(
                merged@,
                i,
            )) by {
                if start > pre_pointer {
                    lemma_covers_push(pre, (pre_pointer, (start - 1) as usize), i);
                }
                if i < pre_pointer {
                } else {
                    // between the old pointer and the new one, position i is
                    // covered by the merged range now scanned exactly when it
                    // reaches start, and by no other merged range
                    assert(merged@.contains(merged@[k as int]));
                    if start <= i <= end {
                        assert(covers(merged@, i));
                    } else {
                        assert(i < start);
                        if covers(merged@, i) {
                            let r = choose|r: (usize, usize)| #[trigger] merged@.contains(r)
                                && r.0 <= i <= r.1;
                            let m = choose|m: int|
                                0 <= m < merged@.len() && merged@[m] == r;
                            if m < k {
                                assert(merged@[m].1 < pre_pointer || pre_pointer == usize::MAX);
                            } else if m == k {
                            } else {
                                assert(merged@[k as int].1 < merged@[m].0);
                            }
                            assert(false);
                        }
                    }
                }
            }
            assert forall|i: int| covers(inverted@, i) implies 0 <= i < pointer by {
                if start > pre_pointer {
                    lemma_covers_push(pre, (pre_pointer, (start - 1) as usize), i);
                }
            }
            if start > pre_pointer {
                assert forall|x: (usize, usize)| #[trigger] inverted@.contains(x) implies exists|
                    y: (usize, usize),
                | #[trigger] normalised_selections@.contains(y) && x.1 <= y.1 by {
                    if x == (pre_pointer, (start - 1) as usize) {
                        assert(merged@.contains(merged@[k as int]));
                        assert(bound_of_input(normalised_selections@, merged@[k as int]));
                        let y = choose|y: (usize, usize)| #[trigger] normalised_selections@
                            .contains(y) && y.1 == merged@[k as int].1;
                        assert(x.1 < start <= end == y.1);
                    } else {
                        assert(pre.contains(x));
                    }
                }
            }
            assert(ranges_disjoint_increasing(inverted@)) by {
                if start > pre_pointer {
                    assert forall|k2: int, l2: int|
                        0 <= k2 < l2 < inverted@.len() implies (#[trigger] inverted@[k2]).1 < (
                    #[trigger] inverted@[l2]).0 by {
                        if l2 < inverted@.len() - 1 {
                            assert(inverted@[k2] == pre[k2] && inverted@[l2] == pre[l2]);
                        } else {
                            assert(inverted@[k2] == pre[k2]);
                            assert(pre[k2].1 < pre_pointer);
                        }
                    }
                }
            }
            // a gap pushed now is maximal: it starts where the last merged
            // range ended (or at zero) and ends right before the one now
            // scanned, both flanks covered
            assert(merged@.contains(merged@[k as int]));
            assert(covers(merged@, start as int));
            assert(end < usize::MAX ==> covers(merged@, end as int));
            if start > pre_pointer {
                assert forall|k2: int| 0 <= k2 < inverted@.len() implies ((
                #[trigger] inverted@[k2]).0 == 0 || covers(merged@, inverted@[k2].0 - 1)) by {
                    if k2 < inverted@.len() - 1 {
                        assert(inverted@[k2] == pre[k2]);
                    } else {
                        assert(inverted@[k2] == (pre_pointer, (start - 1) as usize));
                    }
                }
                assert forall|k2: int| 0 <= k2 < inverted@.len() implies covers(
                    merged@,
                    (#[trigger] inverted@[k2]).1 + 1,
                ) by {
                    if k2 < inverted@.len() - 1 {
                        assert(inverted@[k2] == pre[k2]);
                    } else {
                        assert(inverted@[k2] == (pre_pointer, (start - 1) as usize));
                        assert(inverted@[k2].1 + 1 == start as int);
                    }
                }
            }
        }
        k = k + 1;
    }
    let ghost pre = inverted@;
    let ghost pre_pointer = pointer;
    if pointer < length {
        inverted.push((pointer, length - 1));
    }
    proof {
        assert forall|i: int| 0 <= i < length implies (covers(inverted@, i) <==> !covers(
            normalised_selections@,
            i,
        )) by {
            if pre_pointer < length {
                lemma_covers_push(pre, (pre_pointer, (length - 1) as usize), i);
            }
            if i >= pre_pointer {
                if covers(merged@, i) {
                    let r = choose|r: (usize, usize)| #[trigger] merged@.contains(r) && r.0 <= i
                        <= r.1;
                    let m = choose|m: int| 0 <= m < merged@.len() && merged@[m] == r;
                    assert(merged@[m].1 < pre_pointer || pre_pointer == usize::MAX);
                    assert(false);
                }
            }
        }
        if pre_pointer < length {
            assert forall|x: (usize, usize)| #[trigger] inverted@.contains(x) implies x.1 < length
                || exists|y: (usize, usize)| #[trigger] normalised_selections@.contains(y) && x.1
                <= y.1 by {
                if x != (pre_pointer, (length - 1) as usize) {
                    assert(pre.contains(x));
                }
            }
        }
        if pre_pointer < length {
            assert(ranges_disjoint_increasing(inverted@)) by {
                assert forall|k2: int, l2: int|
                    0 <= k2 < l2 < inverted@.len() implies (#[trigger] inverted@[k2]).1 < (
                #[trigger] inverted@[l2]).0 by {
                    if l2 < inverted@.len() - 1 {
                        assert(inverted@[k2] == pre[k2] && inverted@[l2] == pre[l2]);
                    } else {
                        assert(inverted@[k2] == pre[k2]);
                        assert(pre[k2].1 < pre_pointer);
                    }
                }
            }
        }
        // maximality, read back through the merged list's coverage, which
        // matches the input's everywhere
        assert forall|k2: int| 0 <= k2 < inverted@.len() implies ((#[trigger] inverted@[k2]).0
            == 0 || covers(normalised_selections@, inverted@[k2].0 - 1)) by {
            if pre_pointer < length && k2 == inverted@.len() - 1 {
                assert(inverted@[k2] == (pre_pointer, (length - 1) as usize));
                if pre_pointer != 0 {
                    assert(covers(merged@, pre_pointer - 1));
                }
            } else {
                assert(inverted@[k2] == pre[k2]);
                if pre[k2].0 != 0 {
                    assert(covers(merged@, pre[k2].0 - 1));
                }
            }
        }
        assert forall|k2: int| 0 <= k2 < inverted@.len() implies ((#[trigger] inverted@[k2]).1 + 1
            >= length || covers(normalised_selections@, inverted@[k2].1 + 1)) by {
            if pre_pointer < length && k2 == inverted@.len() - 1 {
                assert(inverted@[k2].1 + 1 == length);
            } else {
                assert(inverted@[k2] == pre[k2]);
                assert(covers(merged@, pre[k2].1 + 1));
            }
        }
    }
    inverted
}

/// The end bound of `range` is the end bound of some input range.
spec fn bound_of_input(inputs: Seq<(usize, usize)>, range: (usize, usize)) -> bool {
    exists|y: (usize, usize)| #[trigger] inputs.contains(y) && y.1 == range.1
}

/// Inverting twice restores the original coverage: when `once` covers,
/// inside `[0, length)`, exactly what `ranges` does not, and `twice`
/// covers exactly what `once` does not, then `twice` covers the same
/// positions as `ranges` — everywhere, provided both lists stay inside
/// `[0, length)`. This is what two calls of `invert_selections` in a row
/// give, complement up to the merging of overlapping ranges.
pub proof fn lemma_invert_round_trip(
    ranges: Seq<(usize, usize)>,
    once: Seq<(usize, usize)>,
    twice: Seq<(usize, usize)>,
    length: usize,
)
    requires
        forall|i: int| 0 <= i < length ==> (covers(once, i) <==> !covers(ranges, i)),
        forall|i: int| 0 <= i < length ==> (covers(twice, i) <==> !covers(once, i)),
        forall|x: (usize, usize)| #[trigger] ranges.contains(x) ==> x.0 <= x.1 < length,
        forall|x: (usize, usize)| #[trigger] twice.contains(x) ==> x.0 <= x.1 < length,
    ensures
        forall|i: int| covers(twice, i) <==> covers(ranges, i),
{
    assert forall|i: int| covers(twice, i) <==> covers(ranges, i) by {
        if i < 0 || i >= length {
            if covers(twice, i) {
                let r = choose|r: (usize, usize)| #[trigger] twice.contains(r) && r.0 <= i <= r.1;
                assert(false);
            }
            if covers(ranges, i) {
                let r = choose|r: (usize, usize)| #[trigger] ranges.contains(r) && r.0 <= i <= r.1;
                assert(false);
            }
        }
    }
}

} // verus!
