//! Shared composition helpers: decimal rendering for count mode, and the
//! emission of byte units over resolved ranges with placeholder
//! substitution.

use vstd::prelude::*;
use crate::selection::SplitError;

verus! {

/// The decimal ASCII digits of `n`, most significant first.
pub open spec fn spec_decimal(n: nat) -> Seq<u8>
    decreases n,
{
    if n < 10 {
        seq![(48 + n) as u8]
    } else {
        spec_decimal(n / 10).push((48 + n % 10) as u8)
    }
}

/// Render `n` as decimal ASCII digits.
pub fn decimal_bytes(n: usize) -> (r: Vec<u8>)
    ensures
        r@ == spec_decimal(n as nat),
    decreases n,
{
    if n < 10 {
        let mut digits: Vec<u8> = Vec::new();
        digits.push(48 + n as u8);
        digits
    } else {
        let mut digits = decimal_bytes(n / 10);
        digits.push(48 + (n % 10) as u8);
        digits
    }
}

/// What position `i` of a unit sequence of length `len` contributes: the
/// unit itself when in range, else the placeholder, else nothing.
pub open spec fn spec_unit_at(units: Seq<Seq<u8>>, i: int, placeholder: Option<Seq<u8>>) -> Seq<
    u8,
> {
    if 0 <= i < units.len() {
        units[i]
    } else {
        match placeholder {
            Some(p) => p,
            None => Seq::empty(),
        }
    }
}

/// The bytes contributed by positions `s ..= e`, in order.
pub open spec fn spec_emit_range(
    units: Seq<Seq<u8>>,
    placeholder: Option<Seq<u8>>,
    s: int,
    e: int,
) -> Seq<u8>
    decreases e - s + 1,
{
    if s > e {
        Seq::empty()
    } else {
        spec_unit_at(units, s, placeholder) + spec_emit_range(units, placeholder, s + 1, e)
    }
}

/// The bytes contributed by a list of ranges, in order, with nothing
/// between them.
pub open spec fn spec_emit_ranges(
    units: Seq<Seq<u8>>,
    placeholder: Option<Seq<u8>>,
    ranges: Seq<(usize, usize)>,
) -> Seq<u8>
    decreases ranges.len(),
{
    if ranges.len() == 0 {
        Seq::empty()
    } else {
        spec_emit_range(units, placeholder, ranges.first().0 as int, ranges.first().1 as int)
            + spec_emit_ranges(units, placeholder, ranges.drop_first())
    }
}

/// A range emits its front positions first: peeling the last position off
/// the back.
pub proof fn lemma_emit_range_snoc(
    units: Seq<Seq<u8>>,
    placeholder: Option<Seq<u8>>,
    s: int,
    e: int,
)
    requires
        s <= e,
    ensures
        spec_emit_range(units, placeholder, s, e) == spec_emit_range(units, placeholder, s, e - 1)
            + spec_unit_at(units, e, placeholder),
    decreases e - s,
{
    if s == e {
        assert(spec_emit_range(units, placeholder, s, e - 1) =~= Seq::empty());
        assert(spec_emit_range(units, placeholder, s + 1, e) =~= Seq::empty());
        assert(spec_emit_range(units, placeholder, s, e) =~= spec_unit_at(units, s, placeholder));
        assert(spec_emit_range(units, placeholder, s, e - 1) + spec_unit_at(units, e, placeholder)
            =~= spec_unit_at(units, e, placeholder));
    } else {
        lemma_emit_range_snoc(units, placeholder, s + 1, e);
        assert(spec_emit_range(units, placeholder, s, e) == spec_unit_at(units, s, placeholder) + (
        spec_emit_range(units, placeholder, s + 1, e - 1) + spec_unit_at(
            units,
            e,
            placeholder,
        )));
        assert(spec_unit_at(units, s, placeholder) + (spec_emit_range(units, placeholder, s + 1, e - 1)
            + spec_unit_at(units, e, placeholder)) =~= (spec_unit_at(units, s, placeholder)
            + spec_emit_range(units, placeholder, s + 1, e - 1)) + spec_unit_at(
            units,
            e,
            placeholder,
        ));
    }
}

/// A range list emits its front ranges first: peeling the last range off
/// the back.
pub proof fn lemma_emit_ranges_snoc(
    units: Seq<Seq<u8>>,
    placeholder: Option<Seq<u8>>,
    ranges: Seq<(usize, usize)>,
    extra: (usize, usize),
)
    ensures
        spec_emit_ranges(units, placeholder, ranges.push(extra)) == spec_emit_ranges(
            units,
            placeholder,
            ranges,
        ) + spec_emit_range(units, placeholder, extra.0 as int, extra.1 as int),
    decreases ranges.len(),
{
    if ranges.len() == 0 {
        assert(ranges.push(extra).first() == extra);
        assert(ranges.push(extra).drop_first() =~= ranges);
        assert(spec_emit_ranges(units, placeholder, ranges) =~= Seq::<u8>::empty());
        assert(spec_emit_ranges(units, placeholder, ranges.push(extra)) == spec_emit_range(
            units,
            placeholder,
            extra.0 as int,
            extra.1 as int,
        ) + spec_emit_ranges(units, placeholder, ranges));
        assert(spec_emit_range(units, placeholder, extra.0 as int, extra.1 as int) + Seq::<
            u8,
        >::empty() =~= spec_emit_range(units, placeholder, extra.0 as int, extra.1 as int));
        assert(Seq::<u8>::empty() + spec_emit_range(
            units,
            placeholder,
            extra.0 as int,
            extra.1 as int,
        ) =~= spec_emit_range(units, placeholder, extra.0 as int, extra.1 as int));
    } else {
        assert(ranges.push(extra).first() == ranges.first());
        assert(ranges.push(extra).drop_first() =~= ranges.drop_first().push(extra));
        lemma_emit_ranges_snoc(units, placeholder, ranges.drop_first(), extra);
        let head = spec_emit_range(
            units,
            placeholder,
            ranges.first().0 as int,
            ranges.first().1 as int,
        );
        let mid = spec_emit_ranges(units, placeholder, ranges.drop_first());
        let tail = spec_emit_range(units, placeholder, extra.0 as int, extra.1 as int);
        assert(head + (mid + tail) =~= (head + mid) + tail);
    }
}

/// The positions of one inclusive range, in ascending order.
pub open spec fn range_indices(s: int, e: int) -> Seq<int> {
    if s > e {
        Seq::empty()
    } else {
        Seq::new((e - s + 1) as nat, |k: int| s + k)
    }
}

/// The positions of a whole range list, in order.
pub open spec fn ranges_indices(ranges: Seq<(usize, usize)>) -> Seq<int>
    decreases ranges.len(),
{
    if ranges.len() == 0 {
        Seq::empty()
    } else {
        range_indices(ranges.first().0 as int, ranges.first().1 as int) + ranges_indices(
            ranges.drop_first(),
        )
    }
}

/// One more position at the back of a range.
pub proof fn lemma_range_indices_snoc(s: int, e: int)
    requires
        s <= e,
    ensures
        range_indices(s, e) == range_indices(s, e - 1).push(e),
{
    assert(range_indices(s, e) =~= range_indices(s, e - 1).push(e));
}

/// One more range at the back of a range list.
pub proof fn lemma_ranges_indices_snoc(ranges: Seq<(usize, usize)>, extra: (usize, usize))
    ensures
        ranges_indices(ranges.push(extra)) == ranges_indices(ranges) + range_indices(
            extra.0 as int,
            extra.1 as int,
        ),
    decreases ranges.len(),
{
    if ranges.len() == 0 {
        assert(ranges.push(extra).first() == extra);
        assert(ranges.push(extra).drop_first() =~= ranges);
        assert(ranges_indices(ranges) =~= Seq::<int>::empty());
        assert(ranges_indices(ranges.push(extra)) =~= range_indices(extra.0 as int, extra.1 as int)
            + ranges_indices(ranges));
        assert(ranges_indices(ranges) + range_indices(extra.0 as int, extra.1 as int)
            =~= range_indices(extra.0 as int, extra.1 as int) + ranges_indices(ranges));
    } else {
        assert(ranges.push(extra).first() == ranges.first());
        assert(ranges.push(extra).drop_first() =~= ranges.drop_first().push(extra));
        lemma_ranges_indices_snoc(ranges.drop_first(), extra);
        let head = range_indices(ranges.first().0 as int, ranges.first().1 as int);
        let mid = ranges_indices(ranges.drop_first());
        let tail = range_indices(extra.0 as int, extra.1 as int);
        assert(head + (mid + tail) =~= (head + mid) + tail);
    }
}

/// `n` spaces (none when `n` is not positive).
pub open spec fn spec_spaces(n: int) -> Seq<u8> {
    if n <= 0 {
        Seq::empty()
    } else {
        Seq::new(n as nat, |k: int| 32u8)
    }
}

/// Whether any listed position contributed real content: an in-range
/// unit with non-empty text. Out-of-range positions never count, so a
/// placeholder substitution is not real content.
pub open spec fn spec_units_content(units: Seq<Seq<u8>>, idxs: Seq<int>) -> bool {
    exists|k: int| 0 <= k < idxs.len() && 0 <= #[trigger] idxs[k] < units.len()
        && units[idxs[k]].len() > 0
}

/// One more position extends the content test by that position alone.
pub proof fn lemma_units_content_push(units: Seq<Seq<u8>>, idxs: Seq<int>, x: int)
    ensures
        spec_units_content(units, idxs.push(x)) == (spec_units_content(units, idxs) || (0 <= x
            < units.len() && units[x].len() > 0)),
{
    if spec_units_content(units, idxs.push(x)) {
        let k = choose|k: int|
            0 <= k < idxs.push(x).len() && 0 <= #[trigger] idxs.push(x)[k] < units.len()
                && units[idxs.push(x)[k]].len() > 0;
        if k < idxs.len() {
            assert(idxs[k] == idxs.push(x)[k]);
        }
    }
    if spec_units_content(units, idxs) {
        let k = choose|k: int|
            0 <= k < idxs.len() && 0 <= #[trigger] idxs[k] < units.len() && units[idxs[k]].len()
                > 0;
        assert(idxs.push(x)[k] == idxs[k]);
    }
    if 0 <= x < units.len() && units[x].len() > 0 {
        assert(idxs.push(x)[idxs.len() as int] == x);
    }
}

/// The output once units are emitted: no real content under strict
/// return checking is an error.
pub open spec fn spec_finish_content(out: Seq<u8>, has_content: bool, strict_return: bool) -> Result<
    Seq<u8>,
    SplitError,
> {
    if strict_return && !has_content {
        Err(SplitError::EmptyResult)
    } else {
        Ok(out)
    }
}

/// The bytes contributed by the listed positions with the separator
/// between consecutive contributions — after every position but the
/// last, whether or not the position contributed anything.
pub open spec fn spec_joined(
    units: Seq<Seq<u8>>,
    placeholder: Option<Seq<u8>>,
    separator: Seq<u8>,
    idxs: Seq<int>,
) -> Seq<u8>
    decreases idxs.len(),
{
    if idxs.len() == 0 {
        Seq::empty()
    } else if idxs.len() == 1 {
        spec_unit_at(units, idxs[0], placeholder)
    } else {
        spec_unit_at(units, idxs.first(), placeholder) + separator + spec_joined(
            units,
            placeholder,
            separator,
            idxs.drop_first(),
        )
    }
}

/// One more position at the back of a joined emission.
pub proof fn lemma_joined_snoc(
    units: Seq<Seq<u8>>,
    placeholder: Option<Seq<u8>>,
    separator: Seq<u8>,
    idxs: Seq<int>,
    x: int,
)
    ensures
        spec_joined(units, placeholder, separator, idxs.push(x)) == if idxs.len() == 0 {
            spec_unit_at(units, x, placeholder)
        } else {
            spec_joined(units, placeholder, separator, idxs) + separator + spec_unit_at(
                units,
                x,
                placeholder,
            )
        },
    decreases idxs.len(),
{
    if idxs.len() == 0 {
        assert(idxs.push(x).len() == 1);
        assert(idxs.push(x)[0] == x);
    } else {
        assert(idxs.push(x).first() == idxs.first());
        assert(idxs.push(x).drop_first() =~= idxs.drop_first().push(x));
        lemma_joined_snoc(units, placeholder, separator, idxs.drop_first(), x);
        let u0 = spec_unit_at(units, idxs.first(), placeholder);
        let ux = spec_unit_at(units, x, placeholder);
        if idxs.len() == 1 {
            assert(idxs.drop_first().len() == 0);
            assert(spec_joined(units, placeholder, separator, idxs.push(x)) == u0 + separator
                + ux);
            assert(spec_joined(units, placeholder, separator, idxs) == u0);
        } else {
            let rest = spec_joined(units, placeholder, separator, idxs.drop_first());
            assert(u0 + separator + (rest + separator + ux) =~= (u0 + separator + rest) + separator
                + ux);
        }
    }
}

/// Emit the listed ranges with the separator between consecutive
/// positions: the unit's bytes when the position is in range, the
/// placeholder (if any) when it is not, and the separator after every
/// position except the very last. Also reports whether any emitted
/// position contributed real content (an in-range, non-empty unit) for
/// strict-return evaluation.
pub fn emit_joined(
    units: &Vec<Vec<u8>>,
    placeholder: &Option<Vec<u8>>,
    separator: &Vec<u8>,
    ranges: &Vec<(usize, usize)>,
) -> (res: (Vec<u8>, bool))
    requires
        forall|k: int| 0 <= k < ranges@.len() ==> (#[trigger] ranges@[k]).0 <= ranges@[k].1
            < usize::MAX,
    ensures
        res.0@ == spec_joined(
            units.deep_view(),
            placeholder.deep_view(),
            separator@,
            ranges_indices(ranges@),
        ),
        res.1 == spec_units_content(units.deep_view(), ranges_indices(ranges@)),
{
    let ghost gunits = units.deep_view();
    let ghost gplaceholder = placeholder.deep_view();
    let ghost gsep = separator@;
    let mut out: Vec<u8> = Vec::new();
    let mut content = false;
    let ghost mut done: Seq<int> = Seq::empty();
    let mut k: usize = 0;
    while k < ranges.len()
        invariant
            k <= ranges.len(),
            forall|k2: int| 0 <= k2 < ranges@.len() ==> (#[trigger] ranges@[k2]).0 <= ranges@[k2].1
                < usize::MAX,
            gunits == units.deep_view(),
            gplaceholder == placeholder.deep_view(),
            gsep == separator@,
            done == ranges_indices(ranges@.take(k as int)),
            content == spec_units_content(gunits, done),
            out@ == spec_joined(gunits, gplaceholder, gsep, done) + (
            if done.len() > 0 && k < ranges@.len() {
                gsep
            } else {
                Seq::<u8>::empty()
            }),
        decreases ranges.len() - k,
    {
        let (s, e) = ranges[k];
        let ghost base_done = done;
        let mut i: usize = s;
        proof {
            assert(range_indices(s as int, s - 1) =~= Seq::<int>::empty());
            assert(base_done + range_indices(s as int, s - 1) =~= base_done);
        }
        while i <= e
            invariant
                s <= i <= e + 1,
                e < usize::MAX,
                k < ranges@.len(),
                (s, e) == ranges@[k as int],
                forall|k2: int| 0 <= k2 < ranges@.len() ==> (#[trigger] ranges@[k2]).0
                    <= ranges@[k2].1 < usize::MAX,
                gunits == units.deep_view(),
                gplaceholder == placeholder.deep_view(),
                gsep == separator@,
                done == base_done + range_indices(s as int, i - 1),
                base_done == ranges_indices(ranges@.take(k as int)),
                content == spec_units_content(gunits, done),
                out@ == spec_joined(gunits, gplaceholder, gsep, done) + (
                if done.len() > 0 && !(k == ranges@.len() - 1 && i > e) {
                    gsep
                } else {
                    Seq::<u8>::empty()
                }),
            decreases e + 1 - i,
        {
            let ghost pre_done = done;
            if i < units.len() {
                let unit = &units[i];
                if unit.len() > 0 {
                    content = true;
                }
                out.extend_from_slice(unit.as_slice());
                proof {
                    assert(gunits[i as int] == units@[i as int].deep_view());
                    assert(spec_unit_at(gunits, i as int, gplaceholder) == unit@);
                }
            } else {
                match placeholder {
                    Some(p) => {
                        out.extend_from_slice(p.as_slice());
                        proof {
                            assert(spec_unit_at(gunits, i as int, gplaceholder) == p@);
                        }
                    },
                    None => {
                        proof {
                            assert(spec_unit_at(gunits, i as int, gplaceholder) =~= Seq::<
                                u8,
                            >::empty());
                        }
                    },
                }
            }
            proof {
                done = pre_done.push(i as int);
                lemma_joined_snoc(gunits, gplaceholder, gsep, pre_done, i as int);
                lemma_units_content_push(gunits, pre_done, i as int);
                lemma_range_indices_snoc(s as int, i as int);
                assert(base_done + range_indices(s as int, i - 1 + 1) =~= (base_done
                    + range_indices(s as int, i - 1)).push(i as int));
                assert(out@ =~= spec_joined(gunits, gplaceholder, gsep, done));
            }
            let last_range = k == ranges.len() - 1;
            if !(last_range && i == e) {
                out.extend_from_slice(separator.as_slice());
            }
            i = i + 1;
        }
        proof {
            assert(ranges@.take(k + 1) =~= ranges@.take(k as int).push(ranges@[k as int]));
            lemma_ranges_indices_snoc(ranges@.take(k as int), ranges@[k as int]);
            assert(done =~= ranges_indices(ranges@.take(k + 1)));
            assert(done.len() > 0);
        }
        k = k + 1;
    }
    proof {
        assert(ranges@.take(ranges@.len() as int) =~= ranges@);
    }
    (out, content)
}

/// Emit every position of every range in order: the unit's bytes when the
/// position is in range, the placeholder (if any) when it is not.
pub fn emit_ranges(
    units: &Vec<Vec<u8>>,
    placeholder: &Option<Vec<u8>>,
    ranges: &Vec<(usize, usize)>,
) -> (out: Vec<u8>)
    requires
        forall|k: int| 0 <= k < ranges@.len() ==> (#[trigger] ranges@[k]).0 <= ranges@[k].1
            < usize::MAX,
    ensures
        out@ == spec_emit_ranges(units.deep_view(), placeholder.deep_view(), ranges@),
{
    let ghost gunits = units.deep_view();
    let ghost gplaceholder = placeholder.deep_view();
    let mut out: Vec<u8> = Vec::new();
    let mut k: usize = 0;
    while k < ranges.len()
        invariant
            k <= ranges.len(),
            forall|k2: int| 0 <= k2 < ranges@.len() ==> (#[trigger] ranges@[k2]).0 <= ranges@[k2].1
                < usize::MAX,
            gunits == units.deep_view(),
            gplaceholder == placeholder.deep_view(),
            out@ == spec_emit_ranges(gunits, gplaceholder, ranges@.take(k as int)),
        decreases ranges.len() - k,
    {
        let (s, e) = ranges[k];
        let ghost base = out@;
        let mut i: usize = s;
        proof {
            assert(base + spec_emit_range(gunits, gplaceholder, s as int, s - 1) =~= base);
        }
        while i <= e
            invariant
                s <= i <= e + 1,
                e < usize::MAX,
                gunits == units.deep_view(),
                gplaceholder == placeholder.deep_view(),
                out@ == base + spec_emit_range(gunits, gplaceholder, s as int, i - 1),
            decreases e + 1 - i,
        {
            if i < units.len() {
                let unit = &units[i];
                out.extend_from_slice(unit.as_slice());
                proof {
                    assert(gunits[i as int] == units@[i as int].deep_view());
                    assert(spec_unit_at(gunits, i as int, gplaceholder) == unit@);
                }
            } else {
                match placeholder {
                    Some(p) => {
                        out.extend_from_slice(p.as_slice());
                        proof {
                            assert(spec_unit_at(gunits, i as int, gplaceholder) == p@);
                        }
                    },
                    None => {
                        proof {
                            assert(spec_unit_at(gunits, i as int, gplaceholder) =~= Seq::<
                                u8,
                            >::empty());
                        }
                    },
                }
            }
            proof {
                lemma_emit_range_snoc(gunits, gplaceholder, s as int, i as int);
                assert(out@ =~= base + spec_emit_range(gunits, gplaceholder, s as int, i as int));
            }
            i = i + 1;
        }
        proof {
            assert(ranges@.take(k + 1) =~= ranges@.take(k as int).push(ranges@[k as int]));
            lemma_emit_ranges_snoc(gunits, gplaceholder, ranges@.take(k as int), ranges@[k as int]);
        }
        k = k + 1;
    }
    proof {
        assert(ranges@.take(ranges@.len() as int) =~= ranges@);
    }
    out
}

} // verus!
