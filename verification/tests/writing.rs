use log_piles::decimal::{decimal_len, push_decimal};
use log_piles::grid::Grid;
use log_piles::layout::{column_widths, push_blanks, render};

fn written(n: u64) -> String {
    let mut text = String::new();
    push_decimal(&mut text, n);
    text
}

#[test]
fn numbers_are_written_in_base_ten() {
    assert_eq!(written(0), "0");
    assert_eq!(written(7), "7");
    assert_eq!(written(10), "10");
    assert_eq!(written(1234567890), "1234567890");
    assert_eq!(written(u64::MAX), "18446744073709551615");
    let mut text = String::from("n = ");
    push_decimal(&mut text, 42);
    assert_eq!(text, "n = 42");
}

#[test]
fn the_number_of_digits_is_counted() {
    assert_eq!(decimal_len(0), 1);
    assert_eq!(decimal_len(9), 1);
    assert_eq!(decimal_len(10), 2);
    assert_eq!(decimal_len(99), 2);
    assert_eq!(decimal_len(100), 3);
    assert_eq!(decimal_len(4294967295), 10);
    assert_eq!(decimal_len(u64::MAX), 20);
}

#[test]
fn blanks_are_written() {
    let mut text = String::from("a");
    push_blanks(&mut text, 0);
    assert_eq!(text, "a");
    push_blanks(&mut text, 3);
    assert_eq!(text, "a   ");
}

#[test]
fn a_column_is_as_wide_as_its_widest_pile() {
    let rows = vec![vec![1, 100, 7], vec![20, 3, 8], vec![5, 5, 10]];
    assert_eq!(column_widths(&rows), vec![2, 4, 3]);
    assert_eq!(column_widths(&vec![vec![4294967295]]), vec![10]);
    assert_eq!(
        column_widths(&vec![vec![0, 4294967295], vec![0, 0]]),
        vec![1, 11]
    );
}

#[test]
fn piles_of_one_digit_stand_one_blank_apart() {
    let grid = Grid::new(2, &["1 2", "3 4"]).unwrap();
    assert_eq!(grid.render(), "1 2\n3 4\n");
}

#[test]
fn piles_are_aligned_at_the_right_of_their_column() {
    let grid = Grid::new(3, &["1 100 7", "20 3 8", "5 5 10"]).unwrap();
    assert_eq!(grid.render(), " 1 100  7\n20   3  8\n 5   5 10\n");
    assert_eq!(
        render(&vec![vec![1, 100, 7], vec![20, 3, 8], vec![5, 5, 10]]),
        " 1 100  7\n20   3  8\n 5   5 10\n"
    );
}

#[test]
fn a_single_pile_is_a_single_line() {
    assert_eq!(Grid::new(1, &["8"]).unwrap().render(), "8\n");
    assert_eq!(Grid::new(1, &["0"]).unwrap().render(), "0\n");
    assert_eq!(
        Grid::new(1, &["4294967295"]).unwrap().render(),
        "4294967295\n"
    );
}

#[test]
fn the_grid_is_written_as_it_stands_after_stacking() {
    let mut grid = Grid::new(2, &["9 9", "9 9"]).unwrap();
    grid.add_logs(1);
    assert_eq!(grid.render(), "10 9\n 9 9\n");
    grid.add_logs(3);
    assert_eq!(grid.render(), "10 10\n10 10\n");
}

#[test]
fn what_is_written_can_be_read_again() {
    let mut grid = Grid::new(3, &["1 100 7", "20 3 8", "5 5 10"]).unwrap();
    grid.add_logs(31);
    let text = grid.render();
    let lines: Vec<&str> = text.lines().collect();
    let again = Grid::new(3, &lines).unwrap();
    assert_eq!(again, grid);
}
