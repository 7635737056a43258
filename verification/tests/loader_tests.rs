use tsp::loader::parse_digits;
use tsp::loader::parse_row;

#[test]
fn parses_a_matrix_row() {
    assert_eq!(parse_row("0 10 15 20"), Some(vec![0, 10, 15, 20]));
}

#[test]
fn extracts_digit_runs_between_other_characters() {
    // the regex engine must cut the line into maximal digit runs: handing
    // the line back unchanged could never produce three separate numbers
    assert_eq!(parse_row("a12,34x7"), Some(vec![12, 34, 7]));
    assert_eq!(parse_row("weights: 5 -> 19"), Some(vec![5, 19]));
}

#[test]
fn a_line_without_numbers_gives_an_empty_row() {
    assert_eq!(parse_row(""), Some(vec![]));
    assert_eq!(parse_row("no numbers here"), Some(vec![]));
}

#[test]
fn largest_weight_fits_and_one_more_does_not() {
    assert_eq!(
        parse_row("18446744073709551615"),
        Some(vec![u64::MAX])
    );
    assert_eq!(parse_row("18446744073709551616"), None);
    assert_eq!(parse_row("1 99999999999999999999 2"), None);
}

#[test]
fn digit_runs_keep_leading_zeroes_in_value() {
    assert_eq!(parse_digits(&vec![b'0', b'0', b'7']), Some(7));
    assert_eq!(parse_digits(&vec![b'4', b'2']), Some(42));
}
