use fepdf_model::function::postscript::{lex, shift};
use fepdf_model::function::read_bits;

#[test]
fn bits_are_read_big_endian_across_bytes() {
    let data = [0b1010_1100, 0b0101_0011];
    assert_eq!(read_bits(&data, 0, 4), Some(0b1010));
    assert_eq!(read_bits(&data, 4, 8), Some(0b1100_0101));
    assert_eq!(read_bits(&data, 12, 4), Some(0b0011));
    assert_eq!(read_bits(&data, 0, 16), Some(0b1010_1100_0101_0011));
    assert_eq!(read_bits(&data, 16, 0), Some(0));
}

#[test]
fn bits_past_the_end_are_refused() {
    let data = [0xff];
    assert_eq!(read_bits(&data, 1, 8), None);
    assert_eq!(read_bits(&data, 8, 1), None);
    assert_eq!(read_bits(&data, u64::MAX, 2), None);
}

#[test]
fn a_program_splits_at_braces_spaces_and_comments() {
    assert_eq!(lex("{ 2 mul dup }"), vec!["{", "2", "mul", "dup", "}"]);
    assert_eq!(lex("{1 add}% rest of line\n{exch}"), vec!["{", "1", "add", "}", "{", "exch", "}"]);
    assert_eq!(lex("  \t\r\n"), Vec::<String>::new());
    assert_eq!(lex("a\u{a0}b"), vec!["a", "b"]);
}

#[test]
fn bitshift_moves_left_right_and_out() {
    assert_eq!(shift(1, 4), 16);
    assert_eq!(shift(-16, -2), -4);
    assert_eq!(shift(5, 64), 0);
    assert_eq!(shift(5, -64), 0);
    assert_eq!(shift(1, 63), i64::MIN);
}
