use npuzzle::remove_comment_by_line;
use npuzzle::snail_sort;

#[test]
fn one_line_without_newline_nor_comment_empty_pattern() {
    let line = "this a test";
    let result = remove_comment_by_line(line, "");

    assert!(result.is_empty());
}

#[test]
fn one_line_without_newline_nor_comment_sharp_pattern() {
    let line = "this a test";
    let result = remove_comment_by_line(line, "#");

    assert!(!result.is_empty());
    assert_eq!(result, vec![line]);
}

#[test]
fn one_line_without_newline_with_comment_sharp_pattern() {
    let expect = vec!["this a test"];
    let line = "this a test # here is a comment";
    let result = remove_comment_by_line(line, "#");

    assert!(!result.is_empty());
    assert_eq!(result, expect);
}

#[test]
fn two_lines_with_one_comment_in_line_sharp_pattern() {
    let expect = vec!["this a test", "this is another test line"];
    let line = "this a test # here is a comment\nthis is another test line";
    let result = remove_comment_by_line(line, "#");

    assert!(!result.is_empty());
    assert_eq!(result, expect);
}

#[test]
fn two_lines_with_comment_start_line_sharp_pattern() {
    let expect = vec!["this a test"];
    let line = "this a test\n   \t# here is a comment";
    let result = remove_comment_by_line(line, "#");

    assert!(!result.is_empty());
    assert_eq!(result, expect);
}

#[test]
fn three_lines_with_comment_start_line_and_mid_line_sharp_pattern() {
    let expect = vec!["this a test", "this is another line"];
    let line = "this a test\n   \t# here is a comment\nthis is another line # with another comment";
    let result = remove_comment_by_line(line, "#");

    assert!(!result.is_empty());
    assert_eq!(result, expect);
}

#[test]
fn snail_three_by_three() {
    let mut test_vec: Vec<u16> = (1..9).collect();
    test_vec.push(0);
    assert_eq!(snail_sort(&test_vec, 3), vec![1, 2, 3, 8, 0, 4, 7, 6, 5]);
}

#[test]
fn snail_four_by_four() {
    let mut test_vec: Vec<u16> = (1..16).collect();
    test_vec.push(0);
    assert_eq!(
        snail_sort(&test_vec, 4),
        vec![1, 2, 3, 4, 12, 13, 14, 5, 11, 0, 15, 6, 10, 9, 8, 7]
    );
}

#[test]
fn snail_five_by_five() {
    let mut test_vec: Vec<u16> = (1..25).collect();
    test_vec.push(0);
    assert_eq!(
        snail_sort(&test_vec, 5),
        vec![
            1, 2, 3, 4, 5, 16, 17, 18, 19, 6, 15, 24, 0, 20, 7, 14, 23, 22, 21, 8, 13, 12, 11,
            10, 9
        ]
    );
}
