use npuzzle::expect_gscore;
use npuzzle::expect_size;
use npuzzle::expect_weight;
use npuzzle::parser;
use npuzzle::sort_check_and_dedup;

#[test]
fn parser_accepts_well_formed_puzzle() {
    let text = String::from("3\n1 2 3\n8 0 4\n7 6 5\n");
    let grid = parser(text).unwrap();
    assert_eq!(grid.get_lines(), 3);
    assert_eq!(grid.get_map(), vec![1, 2, 3, 8, 0, 4, 7, 6, 5]);
}

#[test]
fn parser_strips_comments_and_blanks() {
    let text = String::from("# a puzzle\n3\n1 2 3 # first row\n\n8 0 4\n  7 6 5  \n");
    let grid = parser(text).unwrap();
    assert_eq!(grid.get_map(), vec![1, 2, 3, 8, 0, 4, 7, 6, 5]);
}

#[test]
fn parser_rejects_empty_input() {
    assert!(parser(String::from("")).is_err());
    assert!(parser(String::from("# only a comment\n")).is_err());
}

#[test]
fn parser_rejects_bad_size_line() {
    assert!(parser(String::from("three\n1 2 3\n8 0 4\n7 6 5\n")).is_err());
}

#[test]
fn parser_rejects_size_mismatch() {
    assert!(parser(String::from("3\n1 2 3\n8 0 4\n")).is_err());
    assert!(parser(String::from("2\n1 2 3\n8 0 4\n7 6 5\n")).is_err());
}

#[test]
fn parser_rejects_invalid_token() {
    assert!(parser(String::from("3\n1 2 3\n8 W 4\n7 6 5\n")).is_err());
}

#[test]
fn parser_rejects_wrong_column_count() {
    assert!(parser(String::from("3\n1 2 3\n8 0\n7 6 5 4\n")).is_err());
}

#[test]
fn parser_rejects_non_permutation() {
    assert!(parser(String::from("3\n1 2 3\n8 0 4\n7 6 6\n")).is_err());
    assert!(parser(String::from("3\n1 2 3\n8 0 4\n7 6 9\n")).is_err());
}

#[test]
fn permutation_check() {
    assert!(sort_check_and_dedup(vec![0]));
    assert!(sort_check_and_dedup(vec![2, 0, 1]));
    assert!(!sort_check_and_dedup(vec![]));
    assert!(!sort_check_and_dedup(vec![1, 2, 3]));
    assert!(!sort_check_and_dedup(vec![0, 0, 2]));
}

#[test]
fn size_validator() {
    assert!(expect_size(String::from("3")).is_ok());
    assert!(expect_size(String::from("8")).is_ok());
    assert!(expect_size(String::from("2")).is_err());
    assert!(expect_size(String::from("9")).is_err());
    assert!(expect_size(String::from("three")).is_err());
}

#[test]
fn weight_validator() {
    assert!(expect_weight(String::from("1")).is_ok());
    assert!(expect_weight(String::from("99")).is_ok());
    assert!(expect_weight(String::from("0")).is_err());
    assert!(expect_weight(String::from("100")).is_err());
    assert!(expect_weight(String::from("x")).is_err());
}

#[test]
fn gscore_validator() {
    assert!(expect_gscore(String::from("1")).is_ok());
    assert!(expect_gscore(String::from("4000000000")).is_ok());
    assert!(expect_gscore(String::from("0")).is_err());
    assert!(expect_gscore(String::from("4294967295")).is_err());
    assert!(expect_gscore(String::from("x")).is_err());
}
