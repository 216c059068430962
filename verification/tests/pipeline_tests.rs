//! End-to-end runs through the verified pipeline: build instructions,
//! run over in-memory input, compare bytes.

use splitby::cli::{build_instructions, parse_arguments};
use splitby::reader::run_pipeline;
use splitby::types::Instructions;

fn instructions_for(arguments: &[&str]) -> Instructions {
    let args: Vec<Vec<u8>> = arguments.iter().map(|a| a.as_bytes().to_vec()).collect();
    let (cli, finished) = parse_arguments(&args).expect("arguments should parse");
    assert!(!finished);
    build_instructions(cli).expect("instructions should build")
}

fn run_success_test(description: &str, input_bytes: &[u8], arguments: &[&str], expected_stdout: &[u8]) {
    let instructions = instructions_for(arguments);
    let out = run_pipeline(&input_bytes.to_vec(), &instructions);
    match out {
        Ok(bytes) => assert_eq!(bytes, expected_stdout.to_vec(), "{description}"),
        Err(e) => panic!("{description}: unexpected failure: {e:?}"),
    }
}

fn run_error_test(description: &str, input_bytes: &[u8], arguments: &[&str]) {
    let args: Vec<Vec<u8>> = arguments.iter().map(|a| a.as_bytes().to_vec()).collect();
    let parsed = parse_arguments(&args);
    let cli = match parsed {
        Ok((cli, _)) => cli,
        Err(_) => return,
    };
    let instructions = match build_instructions(cli) {
        Ok(instructions) => instructions,
        Err(_) => return,
    };
    let out = run_pipeline(&input_bytes.to_vec(), &instructions);
    assert!(out.is_err(), "{description}: expected an error");
}

fn bytes_to_hex_string(bytes: &[u8]) -> String {
    bytes.iter().map(|b| format!("{b:02x}")).collect::<Vec<_>>().join(" ")
}

fn run_hex_output_test(description: &str, input_bytes: &[u8], arguments: &[&str], expected_hex: &str) {
    let instructions = instructions_for(arguments);
    let out = run_pipeline(&input_bytes.to_vec(), &instructions).expect(description);
    assert_eq!(bytes_to_hex_string(&out), expected_hex, "{description}");
}

#[test]
fn split_by_space() {
    run_success_test("Split by space", b"this is a test\n", &["-d", "/\\s+/", "1"], b"this\n");
}

#[test]
fn split_by_comma() {
    run_success_test(
        "Split by comma",
        b"apple,banana,plum,cherry\n",
        &["-d", ",", "2"],
        b"banana\n",
    );
}

#[test]
fn per_line_default_extracts_index_2_from_every_row() {
    run_success_test("Per-line rows", b"u v w\nx y z\n", &["-d", " ", "2"], b"v\ny\n");
}

#[test]
fn test_with_newline_delimiter() {
    run_success_test(
        "Whole string by newline",
        b"this\nis\na\ntest\n",
        &["--whole-string", "-d", "/\\n/", "2"],
        b"is",
    );
}

#[test]
fn negative_number() {
    run_success_test("Negative index", b"this is a test\n", &["-d", " ", "-1"], b"test\n");
}

#[test]
fn range_selection() {
    run_success_test("Range", b"this is a test\n", &["-d", " ", "1-2"], b"this is\n");
}

#[test]
fn negative_range_selection() {
    run_success_test("Negative range", b"this is a test\n", &["-d", " ", "-3--1"], b"is a test\n");
}

#[test]
fn positive_to_negative_range() {
    run_success_test("Mixed range", b"this is a test\n", &["-d", " ", "2--1"], b"is a test\n");
}

#[test]
fn split_by_space_empty_selection() {
    run_success_test("No selections", b"this is a test\n", &["-d", " "], b"this is a test\n");
}

#[test]
fn split_by_space_with_multiple_indexes() {
    run_success_test(
        "Multiple selections",
        b"this is a test\n",
        &["-d", " ", "1", "2", "3-4"],
        b"this is a test\n",
    );
}

#[test]
fn comma_separated_selection_basic() {
    run_success_test("Comma selections", b"a b c d\n", &["-d", " ", "1,3"], b"a c\n");
}

#[test]
fn comma_as_first_argument() {
    run_success_test("Comma delimiter", b"a,b,c\n", &[",", "2"], b"b\n");
}

#[test]
fn single_field_with_out_of_range_index() {
    run_success_test("Out of range dropped", b"apple\n", &["-d", " ", "2"], b"\n");
}

#[test]
fn single_delimiter_at_beginning() {
    run_success_test("Leading delimiter", b" apple\n", &["-d", " ", "2"], b"apple\n");
}

#[test]
fn delimiter_appears_multiple_times_with_range() {
    run_success_test("Empty fields kept", b"apple,,orange\n", &["-d", ",", "1-3"], b"apple,,orange\n");
}

#[test]
fn can_join_selections() {
    run_success_test("Join", b"boo hoo foo\n", &["-d", " ", "--join=,"], b"boo,hoo,foo\n");
}

#[test]
fn doesnt_join_in_ranges() {
    run_success_test("Join in ranges", b"boo hoo foo\n", &["-d", " ", "--join=,", "1", "2-3"], b"boo,hoo,foo\n");
}

#[test]
fn join_space() {
    run_success_test(
        "Join @space",
        b"apple,banana,cherry\n",
        &["-d", ",", "--join=@space", "1", "2", "3"],
        b"apple banana cherry\n",
    );
}

#[test]
fn join_first_mixed_delimiters() {
    run_success_test(
        "Join @first",
        b"apple;banana,cherry\n",
        &["-d", "/[,;]/", "--join=@first", "1", "2", "3"],
        b"apple;banana;cherry\n",
    );
}

#[test]
fn join_last_mixed_delimiters() {
    run_success_test(
        "Join @last",
        b"apple;banana,cherry\n",
        &["-d", "/[,;]/", "--join=@last", "1", "2", "3"],
        b"apple,banana,cherry\n",
    );
}

#[test]
fn per_line_keeps_final_newline_when_present() {
    run_success_test("Final newline kept", b"alpha\nbeta\n", &["--bytes", "1"], b"a\nb\n");
}

#[test]
fn per_line_does_not_add_final_newline_when_absent() {
    run_success_test("No invented newline", b"alpha\nbeta", &["--bytes", "1"], b"a\nb");
}

#[test]
fn per_line_preserves_empty_line_terminator() {
    run_success_test("Lone newline", b"\n", &["--bytes"], b"\n");
}

#[test]
fn using_count_to_count_fields() {
    run_success_test("Count fields", b"this is a test\n", &["-d", " ", "--count"], b"4\n");
}

#[test]
fn count_takes_precedence_over_join() {
    run_success_test("Count wins", b"a b\n", &["-d", " ", "--join=,", "--count"], b"2\n");
}

#[test]
fn invert_single_index() {
    run_success_test("Invert one", b"a b c\n", &["-d", " ", "--invert", "2"], b"a c\n");
}

#[test]
fn invert_range_selection() {
    run_success_test("Invert range", b"this is a test\n", &["-d", " ", "--invert", "2-3"], b"this test\n");
}

#[test]
fn strict_bounds_feature() {
    run_error_test("Strict bounds", b"this is a test\n", &["--strict-bounds", "-d", " ", "5"]);
}

#[test]
fn strict_bounds_with_out_of_range_index_0() {
    run_error_test("Zero index", b"a b\n", &["--strict-bounds", "-d", " ", "0"]);
}

#[test]
fn strict_return_feature() {
    run_error_test("Strict return", b"a b\n", &["--strict-return", "-d", "z", "2"]);
}

#[test]
fn strict_return_doesnt_allow_empty_fields() {
    run_error_test("Strict return empties", b",\n", &["--strict-return", "-d", ","]);
}

#[test]
fn strict_return_counts() {
    run_success_test("Count under strict return", b",\n", &["--strict-return", "--count", "-d", ","], b"2\n");
}

#[test]
fn start_after_end_no_strict_range_order() {
    run_success_test("Reversed dropped", b"this is a test\n", &["--no-strict-range-order", "-d", " ", "2-1"], b"\n");
}

#[test]
fn start_after_end_strict_range() {
    run_error_test("Reversed rejected", b"this is a test\n", &["-d", " ", "2-1"]);
}

#[test]
fn starting_empty_field() {
    run_success_test("Skip empty head", b",orange\n", &["--skip-empty", "-d", ",", "1"], b"orange\n");
}

#[test]
fn middle_field_empty() {
    run_success_test("Skip empty middle", b"apple,,orange\n", &["--skip-empty", "-d", ",", "2"], b"orange\n");
}

#[test]
fn all_fields_empty_with_count() {
    run_success_test("Skip empty count", b",\n", &["--skip-empty", "-d", ",", "--count"], b"0\n");
}

#[test]
fn skip_empty_overrides_no_skip_empty() {
    run_success_test("Last flag wins", b"a,,b\n", &["-d", ",", "--count", "--no-skip-empty", "--skip-empty"], b"2\n");
}

#[test]
fn byte_mode_single_byte() {
    run_success_test("Byte one", b"hello\n", &["--bytes", "1"], b"h\n");
}

#[test]
fn byte_mode_negative_range() {
    run_success_test("Byte negative range", b"hello\n", &["--bytes", "-3--1"], b"llo\n");
}

#[test]
fn byte_mode_count() {
    run_success_test("Byte count", b"hello\n", &["--count", "--bytes"], b"5\n");
}

#[test]
fn byte_mode_count_with_empty() {
    run_success_test("Byte count empty", b"\n", &["--count", "--bytes"], b"0\n");
}

#[test]
fn byte_mode_join_not_supported() {
    run_error_test("Byte join refused", b"hello\n", &["--join", ",", "--bytes", "1", "3", "5"]);
}

#[test]
fn byte_mode_invert() {
    run_success_test("Byte invert", b"hello\n", &["--invert", "--bytes", "2", "4"], b"hlo\n");
}

#[test]
fn byte_mode_placeholder_out_of_bounds() {
    run_success_test("Byte placeholder", b"hello\n", &["--placeholder=?", "--bytes", "10"], b"?\n");
}

#[test]
fn byte_mode_placeholder_multiple() {
    run_hex_output_test(
        "Byte placeholders",
        b"hello\n",
        &["--placeholder=0x00", "--bytes", "1", "10", "3"],
        "68 00 6c 0a",
    );
}

#[test]
fn byte_mode_whole_string_mode() {
    run_success_test("Byte whole string", b"hello\nworld\n", &["--whole-string", "--bytes", "1-5"], b"hello");
}

#[test]
fn byte_mode_strict_return_empty_output() {
    run_error_test("Byte strict return", b"hello\n", &["--strict-return", "--bytes", "10"]);
}

#[test]
fn char_mode_single_character() {
    run_success_test("Char one", b"hello\n", &["--characters", "1"], b"h\n");
}

#[test]
fn char_mode_count_with_graphemes() {
    run_success_test("Grapheme count", "a\u{310}e\u{301}o\u{308}\u{332}\n".as_bytes(), &["--characters", "--count"], b"3\n");
}

#[test]
fn char_mode_grapheme_cluster_cafe() {
    run_success_test(
        "Grapheme select",
        "cafe\u{301}\n".as_bytes(),
        &["--characters", "4"],
        "e\u{301}\n".as_bytes(),
    );
}

#[test]
fn char_mode_join() {
    run_success_test("Char join", b"abc\n", &["--characters", "--join=-", "1", "3"], b"a-c\n");
}

#[test]
fn char_mode_strict_utf8_rejects_invalid() {
    run_error_test("Strict UTF-8", b"a\xFFb\n", &["--characters", "--strict-utf8", "1"]);
}

#[test]
fn char_mode_no_strict_utf8_allows_invalid() {
    run_success_test("Lossy UTF-8", b"a\xFFb\n", &["--characters", "1"], b"a\n");
}

#[test]
fn zero_terminated_field_selection() {
    run_success_test("Zero-terminated", b"a,b\0c,d\0", &["-z", "-d", ",", "2"], b"b\0d\0");
}

#[test]
fn zero_terminated_missing_final_terminator_stays_missing() {
    run_success_test("Zero-terminated open end", b"a,b\0c,d", &["-z", "-d", ",", "1"], b"a\0c");
}

#[test]
fn hex_placeholder_multi_byte() {
    run_hex_output_test(
        "Hex placeholder bytes",
        b"x\n",
        &["--placeholder=0xDEAD", "--bytes", "5"],
        "de ad 0a",
    );
}

#[test]
fn hex_join_multi_byte() {
    run_success_test("Hex join", b"a b\n", &["-d", " ", "--join=0x2c20", "1", "2"], b"a, b\n");
}

#[test]
fn join_hex_odd_length_is_literal() {
    run_success_test("Odd hex literal", b"a b\n", &["-d", " ", "--join=0x1", "1", "2"], b"a0x1b\n");
}

#[test]
fn empty_input() {
    run_success_test("Empty input", b"", &["-d", ",", "1"], b"");
}

#[test]
fn delimiter_not_provided() {
    let args: Vec<Vec<u8>> = vec![b"1".to_vec()];
    let (cli, _) = parse_arguments(&args).expect("parse");
    assert!(build_instructions(cli).is_err());
}

#[test]
fn delimiter_empty() {
    let args: Vec<Vec<u8>> = vec![b"-d".to_vec(), b"".to_vec(), b"1".to_vec()];
    let (cli, _) = parse_arguments(&args).expect("parse");
    assert!(build_instructions(cli).is_err());
}

#[test]
fn align_error_bytes_mode() {
    run_error_test("Align bytes refused", b"hello\n", &["--bytes", "--align", "left", "1"]);
}

#[test]
fn align_error_whole_string() {
    run_error_test("Align whole-string refused", b"a,b\n", &["-w", "-d", ",", "--align", "left", "1", "2"]);
}

#[test]
fn strict_return_rejects_placeholder_only_output() {
    run_error_test(
        "Placeholder is not real content",
        b"\n",
        &["--strict-return", "--placeholder=?", "-d", ",", "2"],
    );
}

#[test]
fn byte_mode_strict_return_rejects_placeholder_only_output() {
    run_error_test(
        "Byte placeholder is not real content",
        b"hi\n",
        &["--strict-return", "--bytes", "--placeholder=?", "9"],
    );
}

#[test]
fn strict_return_accepts_real_content_beside_placeholder() {
    run_success_test(
        "Real content beside a placeholder",
        b"a,b\n",
        &["--strict-return", "--placeholder=?", "-d", ",", "1", "5"],
        b"a,?\n",
    );
}

#[test]
fn auto_join_prefers_delimiter_leading_next_field() {
    run_success_test(
        "Auto join falls to the next field's leading delimiter",
        b"a.b,c;d\n",
        &["-d", "/[.,;]/", "4", "3"],
        b"d,c\n",
    );
}

#[test]
fn before_next_join_uses_delimiter_leading_next_field() {
    run_success_test(
        "Explicit before-next join across a gap",
        b"a.b,c;d\n",
        &["-d", "/[.,;]/", "--join=@before-next", "1", "4"],
        b"a;d\n",
    );
}

#[test]
fn literal_delimiter_dot_is_escaped() {
    run_success_test("Literal dot delimiter", b"a.b.c\n", &["-d", ".", "2"], b"b\n");
}

#[test]
fn slash_wrapped_delimiter_is_a_regex() {
    run_success_test("Slash-wrapped regex delimiter", b"axb\n", &["-d", "/x+/", "2"], b"b\n");
}
