//! Direct tests of the selection algebra, token grammars and width
//! measurement.

use splitby::cli::{parse_hex, parse_selection_token, trim_quotes};
use splitby::selection::{invert_selections, normalise_selection, resolve_index, SplitError};
use splitby::types::Delimiter;
use splitby::utilities::{ansi_strip, display_width};

#[test]
fn resolve_positive_and_negative() {
    assert_eq!(resolve_index(1, 4), Ok(0));
    assert_eq!(resolve_index(-1, 4), Ok(3));
    assert_eq!(resolve_index(0, 4), Ok(4));
}

#[test]
fn normalise_clamps_leniently() {
    assert_eq!(normalise_selection(2, 9, 4, false, false, true), Ok(Some((1, 3))));
    assert_eq!(normalise_selection(9, 9, 4, false, false, true), Ok(None));
    assert_eq!(normalise_selection(9, 9, 4, true, false, true), Ok(Some((8, 8))));
}

#[test]
fn normalise_strict_bounds_errors() {
    assert!(matches!(
        normalise_selection(5, 5, 4, false, true, true),
        Err(SplitError::OutOfBounds { .. })
    ));
    assert_eq!(normalise_selection(0, 1, 4, false, true, true), Err(SplitError::InvalidIndex));
}

#[test]
fn normalise_range_order() {
    assert!(matches!(
        normalise_selection(3, 2, 4, false, false, true),
        Err(SplitError::RangeOrder { .. })
    ));
    assert_eq!(normalise_selection(3, 2, 4, false, false, false), Ok(None));
}

#[test]
fn normalise_lenient_empty_record_drops() {
    assert_eq!(normalise_selection(-3, 3, 0, false, false, false), Ok(None));
    assert_eq!(normalise_selection(1, 1, 0, false, false, false), Ok(None));
}

#[test]
fn invert_complements_coverage() {
    let inverted = invert_selections(vec![(1, 2)], 5);
    assert_eq!(inverted, vec![(0, 0), (3, 4)]);
    let back = invert_selections(inverted, 5);
    assert_eq!(back, vec![(1, 2)]);
}

#[test]
fn invert_empty_and_full() {
    assert_eq!(invert_selections(vec![], 5), vec![(0, 4)]);
    assert_eq!(invert_selections(vec![(0, 4)], 5), vec![]);
}

#[test]
fn invert_merges_overlaps() {
    let inverted = invert_selections(vec![(2, 3), (1, 2), (6, 6)], 8);
    assert_eq!(inverted, vec![(0, 0), (4, 5), (7, 7)]);
}

#[test]
fn selection_tokens() {
    assert_eq!(parse_selection_token(&b"2".to_vec()), Some((2, 2)));
    assert_eq!(parse_selection_token(&b"2-3".to_vec()), Some((2, 3)));
    assert_eq!(parse_selection_token(&b"-3--1".to_vec()), Some((-3, -1)));
    assert_eq!(parse_selection_token(&b"start-END".to_vec()), Some((1, -1)));
    assert_eq!(parse_selection_token(&b" last ".to_vec()), Some((-1, -1)));
    assert_eq!(parse_selection_token(&b"x".to_vec()), None);
    assert_eq!(parse_selection_token(&b"1-2-3".to_vec()), None);
    assert_eq!(parse_selection_token(&b"99999999999".to_vec()), None);
}

#[test]
fn hex_literals() {
    assert_eq!(parse_hex(&b"0x00".to_vec()), Some(vec![0]));
    assert_eq!(parse_hex(&b"0XDEAD".to_vec()), Some(vec![0xDE, 0xAD]));
    assert_eq!(parse_hex(&b"0x1".to_vec()), None);
    assert_eq!(parse_hex(&b"0x".to_vec()), None);
    assert_eq!(parse_hex(&b"0xzz".to_vec()), None);
    assert_eq!(parse_hex(&b"deadbeef".to_vec()), None);
}

#[test]
fn quotes_and_delimiters() {
    assert_eq!(trim_quotes(&b"\"abc\"".to_vec()), b"abc".to_vec());
    assert_eq!(trim_quotes(&b"'a'".to_vec()), b"a".to_vec());
    assert_eq!(trim_quotes(&b"abc".to_vec()), b"abc".to_vec());
    assert_eq!(
        splitby::cli::parse_delimiter_token(&b"/a+/".to_vec()),
        Delimiter::Regex(b"a+".to_vec())
    );
    assert_eq!(
        splitby::cli::parse_delimiter_token(&b",".to_vec()),
        Delimiter::Literal(b",".to_vec())
    );
}

#[test]
fn widths_strip_ansi_and_measure_columns() {
    assert_eq!(ansi_strip(&b"\x1b[31mred\x1b[0m".to_vec()), b"red".to_vec());
    assert_eq!(display_width(&b"abc".to_vec()), 3);
    assert_eq!(display_width(&b"\x1b[1mabc\x1b[m".to_vec()), 3);
    assert_eq!(display_width(&"\u{4F60}\u{597D}".as_bytes().to_vec()), 4);
}
