use log_piles::answer;

fn text(lines: &[&str]) -> String {
    answer(lines).expect("the grid has room for the logs")
}

#[test]
fn a_level_grid_without_logs_is_written_as_it_is() {
    assert_eq!(text(&["2", "0", "1 1", "1 1"]), "1 1\n1 1\n");
}

#[test]
fn two_logs_on_four_tied_piles_go_on_the_first_row() {
    assert_eq!(text(&["2", "2", "1 1", "1 1"]), "2 2\n1 1\n");
}

#[test]
fn five_logs_on_a_single_pile_of_three_make_eight() {
    assert_eq!(text(&["1", "5", "3"]), "8\n");
}

#[test]
fn one_log_goes_on_the_pile_of_one() {
    assert_eq!(text(&["2", "1", "1 2", "3 4"]), "2 2\n3 4\n");
}

#[test]
fn columns_grow_with_the_piles() {
    assert_eq!(
        text(&["3", "7", "1 1 1", "2 1 3", "1 4 1"]),
        "3 2 2\n2 2 3\n2 4 2\n"
    );
    assert_eq!(
        text(&["3", "7", "15 12 10", "10 9 11", "10 10 9"]),
        "15 12 11\n11 11 11\n11 11 10\n"
    );
    assert_eq!(text(&["2", "1", "  9  9 ", "9\t9"]), "10 9\n 9 9\n");
}

#[test]
fn size_zero_is_answered_with_one_line() {
    assert_eq!(
        text(&["0", "4"]),
        "Invalid input: size cannot be zero\n"
    );
    assert_eq!(
        text(&["0", "4", "1 2", "3 4"]),
        "Invalid input: size cannot be zero\n"
    );
}

#[test]
fn a_wrong_input_is_answered_with_one_line() {
    assert_eq!(text(&[]), "Invalid input: no grid size given\n");
    assert_eq!(
        text(&["x"]),
        "Invalid input: grid size must be positive integer\n"
    );
    assert_eq!(text(&["2"]), "Invalid input: no logs count given\n");
    assert_eq!(
        text(&["2", "-1"]),
        "Invalid input: logs count must be positive integer\n"
    );
    assert_eq!(
        text(&["2", "1", "1 2 3", "4 5"]),
        "Invalid input: each grid row must be exactly 2 piles wide\n"
    );
    assert_eq!(
        text(&["2", "1", "1 2", "4 five"]),
        "Invalid input: each log pile must be positive integer\n"
    );
    assert_eq!(
        text(&["2", "1", "1 2"]),
        "Invalid input: grid must be exactly 2 rows long\n"
    );
    assert_eq!(
        text(&["2", "1", "1 2", "3 4", "5 6"]),
        "Invalid input: grid must be exactly 2 rows long\n"
    );
}

#[test]
fn logs_that_do_not_fit_are_not_stacked() {
    assert_eq!(answer(&["1", "1", "4294967295"]), None);
    assert_eq!(
        answer(&["2", "3", "4294967295 4294967294", "4294967295 4294967294"]),
        None
    );
    assert_eq!(
        answer(&["2", "2", "4294967295 4294967294", "4294967295 4294967294"]),
        Some(String::from(
            "4294967295 4294967295\n4294967295 4294967295\n"
        ))
    );
    assert_eq!(
        answer(&["1", "0", "4294967295"]),
        Some(String::from("4294967295\n"))
    );
}
