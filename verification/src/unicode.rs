//! Text facts the library takes from outside: UTF-8 validation and lossy
//! decoding, grapheme cluster segmentation, and terminal display width.
//! Each outside call stands behind a trusted wrapper; deterministic
//! results are named so that contracts can speak of them exactly.

use vstd::prelude::*;
use unicode_segmentation::UnicodeSegmentation;
use unicode_width::UnicodeWidthStr;

verus! {

/// Whether `bytes` form valid UTF-8: the condition under which
/// `str::from_utf8` succeeds.
pub uninterp spec fn utf8_valid(bytes: Seq<u8>) -> bool;

/// The UTF-8 bytes of `String::from_utf8_lossy(bytes)`: `bytes` with each
/// invalid sequence replaced by the replacement character.
pub uninterp spec fn lossy_decoded(bytes: Seq<u8>) -> Seq<u8>;

/// The extended grapheme clusters of a valid UTF-8 byte string, in order,
/// each as its byte string.
pub uninterp spec fn graphemes_of(text: Seq<u8>) -> Seq<Seq<u8>>;

/// The terminal display width, in columns, of a valid UTF-8 byte string.
pub uninterp spec fn display_width_of(text: Seq<u8>) -> usize;

/// Relies on `str::from_utf8`: it succeeds exactly on valid UTF-8.
#[verifier::external_body]
pub fn check_utf8(bytes: &Vec<u8>) -> (r: bool)
    ensures
        r == utf8_valid(bytes@),
{
    core::str::from_utf8(bytes).is_ok()
}

/// Relies on `String::from_utf8_lossy`: valid input comes back unchanged,
/// anything it returns is itself valid UTF-8, and an empty input stays
/// empty.
#[verifier::external_body]
pub fn decode_lossy(bytes: &Vec<u8>) -> (r: Vec<u8>)
    ensures
        r@ == lossy_decoded(bytes@),
        utf8_valid(bytes@) ==> r@ == bytes@,
        utf8_valid(r@),
        bytes@.len() == 0 ==> r@.len() == 0,
{
    String::from_utf8_lossy(bytes).into_owned().into_bytes()
}

/// Relies on `unicode_segmentation`'s `graphemes(true)`: the clusters are
/// non-empty substrings that, concatenated, give back the string.
#[verifier::external_body]
pub fn split_graphemes(text: &Vec<u8>) -> (r: Vec<Vec<u8>>)
    requires
        utf8_valid(text@),
    ensures
        r.deep_view() == graphemes_of(text@),
        r.deep_view().flatten() == text@,
        forall|k: int| 0 <= k < r.deep_view().len() ==> (#[trigger] r.deep_view()[k]).len() > 0,
        text@.len() == 0 ==> r@.len() == 0,
        forall|k: int| 0 <= k < r.deep_view().len() ==> utf8_valid(#[trigger] r.deep_view()[k]),
{
    let s = core::str::from_utf8(text).unwrap();
    s.graphemes(true).map(|g| g.as_bytes().to_vec()).collect()
}

/// Relies on `unicode_width`'s `UnicodeWidthStr::width`: the string's
/// displayed width in columns, a function of the characters alone. An
/// empty string has width zero, and each trailing space adds exactly
/// one column: a space is one column wide and joins no wide or emoji
/// sequence, so the width scan treats it independently of what stands
/// before it.
#[verifier::external_body]
pub fn text_width(text: &Vec<u8>) -> (r: usize)
    requires
        utf8_valid(text@),
    ensures
        r == display_width_of(text@),
        text@.len() == 0 ==> r == 0,
        forall|prefix: Seq<u8>, n: int|
            n >= 0 && text@ == prefix + crate::compose::spec_spaces(n) ==> r == display_width_of(
                prefix,
            ) + n,
{
    core::str::from_utf8(text).unwrap().width()
}

} // verus!
