//! Display-width measurement for alignment: ANSI CSI escape sequences are
//! removed before measuring, and measuring is terminal column width on
//! the lossily decoded text, never raw byte length.

use vstd::prelude::*;
use crate::unicode::{decode_lossy, display_width_of, lossy_decoded, text_width};

verus! {

/// A byte allowed in a CSI sequence's parameter part: a decimal digit or
/// a semicolon.
pub open spec fn is_csi_param(b: u8) -> bool {
    48 <= b <= 57 || b == 59
}

/// An ASCII letter, which ends a CSI sequence.
pub open spec fn is_ascii_letter(b: u8) -> bool {
    65 <= b <= 90 || 97 <= b <= 122
}

/// The first position at or after `j` that does not hold a CSI parameter
/// byte (or the end of the text).
pub open spec fn csi_param_end(s: Seq<u8>, j: int) -> int
    recommends
        0 <= j <= s.len(),
    decreases s.len() - j,
{
    if j < 0 || j >= s.len() {
        s.len() as int
    } else if !is_csi_param(s[j]) {
        j
    } else {
        csi_param_end(s, j + 1)
    }
}

/// The length of the CSI escape sequence standing at the front of `s`
/// (`ESC [`, parameter bytes, one letter), or zero when none does.
pub open spec fn csi_match_len(s: Seq<u8>) -> int {
    if s.len() >= 2 && s[0] == 27 && s[1] == 91 {
        let e = csi_param_end(s, 2);
        if e < s.len() && is_ascii_letter(s[e]) {
            e + 1
        } else {
            0
        }
    } else {
        0
    }
}

/// The ends of the parameter scan stay within the text and behind only
/// parameter bytes.
proof fn lemma_csi_param_end_bounds(s: Seq<u8>, j: int)
    requires
        0 <= j <= s.len(),
    ensures
        j <= csi_param_end(s, j) <= s.len(),
    decreases s.len() - j,
{
    if j < s.len() && is_csi_param(s[j]) {
        lemma_csi_param_end_bounds(s, j + 1);
    }
}

/// A scan that walked over parameter bytes from `a` and stopped at `b`
/// found exactly the spec's parameter end.
proof fn lemma_csi_param_end_value(s: Seq<u8>, a: int, b: int)
    requires
        0 <= a <= b <= s.len(),
        forall|t: int| a <= t < b ==> is_csi_param(s[t]),
        b == s.len() || !is_csi_param(s[b]),
    ensures
        csi_param_end(s, a) == b,
    decreases b - a,
{
    if a < b {
        lemma_csi_param_end_value(s, a + 1, b);
    }
}

/// `s` with every CSI escape sequence removed, scanning left to right.
pub open spec fn spec_ansi_strip(s: Seq<u8>) -> Seq<u8>
    decreases s.len(),
{
    if s.len() == 0 {
        Seq::empty()
    } else {
        let m = csi_match_len(s);
        if 0 < m <= s.len() {
            spec_ansi_strip(s.skip(m))
        } else {
            seq![s[0]] + spec_ansi_strip(s.skip(1))
        }
    }
}

/// Remove every ANSI CSI escape sequence (`ESC [`, digits and
/// semicolons, one letter) from the bytes, keeping everything else.
pub fn ansi_strip(bytes: &Vec<u8>) -> (r: Vec<u8>)
    ensures
        r@ == spec_ansi_strip(bytes@),
{
    let mut out: Vec<u8> = Vec::new();
    let mut pos: usize = 0;
    proof {
        assert(bytes@.skip(0) =~= bytes@);
    }
    while pos < bytes.len()
        invariant
            pos <= bytes.len(),
            spec_ansi_strip(bytes@) == out@ + spec_ansi_strip(bytes@.skip(pos as int)),
        decreases bytes.len() - pos,
    {
        let ghost suffix = bytes@.skip(pos as int);
        let mut matched: usize = 0;
        if bytes[pos] == 27 && pos + 1 < bytes.len() && bytes[pos + 1] == 91 {
            let mut j: usize = pos + 2;
            while j < bytes.len() && 48 <= bytes[j] && bytes[j] <= 57 || j < bytes.len() && bytes[j]
                == 59
                invariant
                    pos + 2 <= j <= bytes.len(),
                    forall|t: int| pos + 2 <= t < j ==> is_csi_param(bytes@[t]),
                decreases bytes.len() - j,
            {
                j = j + 1;
            }
            proof {
                assert forall|t: int| 2 <= t < j - pos implies is_csi_param(suffix[t]) by {
                    assert(suffix[t] == bytes@[pos + t]);
                }
                if j < bytes.len() {
                    assert(suffix[j - pos] == bytes@[j as int]);
                }
                lemma_csi_param_end_value(suffix, 2, j - pos);
            }
            if j < bytes.len() {
                let b = bytes[j];
                if (65 <= b && b <= 90) || (97 <= b && b <= 122) {
                    matched = j + 1 - pos;
                    proof {
                        assert(suffix[j - pos] == bytes@[j as int]);
                        assert(csi_match_len(suffix) == j + 1 - pos);
                    }
                }
            }
        }
        if matched > 0 {
            proof {
                assert(csi_match_len(suffix) == matched);
                assert(suffix.skip(matched as int) =~= bytes@.skip(pos + matched));
            }
            pos = pos + matched;
        } else {
            let ghost pre_out = out@;
            proof {
                assert(csi_match_len(suffix) == 0) by {
                    if suffix.len() >= 2 && suffix[0] == 27 && suffix[1] == 91 {
                        lemma_csi_param_end_bounds(suffix, 2);
                    }
                }
                assert(suffix.skip(1) =~= bytes@.skip(pos + 1));
                assert(suffix[0] == bytes@[pos as int]);
                assert(spec_ansi_strip(suffix) == seq![bytes@[pos as int]] + spec_ansi_strip(
                    bytes@.skip(pos + 1),
                ));
            }
            out.push(bytes[pos]);
            proof {
                assert(out@ + spec_ansi_strip(bytes@.skip(pos + 1)) =~= pre_out + (seq![
                    bytes@[pos as int],
                ] + spec_ansi_strip(bytes@.skip(pos + 1))));
            }
            pos = pos + 1;
        }
    }
    proof {
        assert(bytes@.skip(bytes@.len() as int) =~= Seq::<u8>::empty());
        assert(out@ + Seq::<u8>::empty() =~= out@);
    }
    out
}

/// The displayed width of raw record bytes: CSI sequences removed, the
/// rest decoded lossily, then measured in terminal columns.
pub open spec fn spec_display_width(bytes: Seq<u8>) -> usize {
    display_width_of(lossy_decoded(spec_ansi_strip(bytes)))
}

/// Measure the display width (terminal columns) of the bytes, stripping
/// ANSI CSI sequences first and decoding lossily, never counting raw
/// bytes.
pub fn display_width(bytes: &Vec<u8>) -> (r: usize)
    ensures
        r == spec_display_width(bytes@),
{
    let stripped = ansi_strip(bytes);
    let decoded = decode_lossy(&stripped);
    text_width(&decoded)
}

} // verus!
