use log_piles::grid::Grid;

fn grid(size: usize, lines: &[&str]) -> Grid {
    Grid::new(size, lines).expect("the lines are a grid")
}

fn sum(grid: &Grid) -> u64 {
    let mut sum: u64 = 0;
    for row in grid.rows() {
        for pile in row {
            sum += u64::from(*pile);
        }
    }
    sum
}

fn lowest(grid: &Grid) -> u32 {
    let mut lowest = u32::MAX;
    for row in grid.rows() {
        for pile in row {
            if *pile < lowest {
                lowest = *pile;
            }
        }
    }
    lowest
}

#[test]
fn no_logs_leave_a_level_grid_unchanged() {
    let mut piles = grid(2, &["1 1", "1 1"]);
    piles.add_logs(0);
    assert_eq!(piles.rows(), &vec![vec![1, 1], vec![1, 1]]);
    assert_eq!(piles.min_pile_size(), 1);
}

#[test]
fn no_logs_leave_any_grid_unchanged() {
    let mut piles = grid(3, &["9 2 7", "4 4 0", "12 3 5"]);
    piles.add_logs(0);
    assert_eq!(piles, grid(3, &["9 2 7", "4 4 0", "12 3 5"]));
    assert_eq!(
        piles.rows(),
        &vec![vec![9, 2, 7], vec![4, 4, 0], vec![12, 3, 5]]
    );
    assert_eq!(piles.min_pile_size(), 0);

    let mut full = grid(1, &["4294967295"]);
    full.add_logs(0);
    assert_eq!(full.rows(), &vec![vec![4294967295]]);
}

#[test]
fn tied_piles_are_raised_row_by_row() {
    let mut piles = grid(2, &["1 1", "1 1"]);
    piles.add_logs(2);
    assert_eq!(piles.rows(), &vec![vec![2, 2], vec![1, 1]]);
}

#[test]
fn a_single_pile_takes_every_log() {
    let mut piles = grid(1, &["3"]);
    piles.add_logs(5);
    assert_eq!(piles.rows(), &vec![vec![8]]);
    assert_eq!(piles.min_pile_size(), 8);
}

#[test]
fn one_log_goes_on_the_only_lowest_pile() {
    let mut piles = grid(2, &["1 2", "3 4"]);
    piles.add_logs(1);
    assert_eq!(piles.rows(), &vec![vec![2, 2], vec![3, 4]]);
    assert_eq!(piles.min_pile_size(), 2);
}

#[test]
fn logs_go_on_through_several_heights() {
    let mut piles = grid(2, &["1 2", "3 4"]);
    piles.add_logs(4);
    assert_eq!(piles.rows(), &vec![vec![4, 3], vec![3, 4]]);
    assert_eq!(piles.min_pile_size(), 3);
}

#[test]
fn the_scan_stops_in_the_middle_of_a_row() {
    let mut piles = grid(3, &["5 0 0", "0 7 0", "0 0 0"]);
    piles.add_logs(4);
    assert_eq!(
        piles.rows(),
        &vec![vec![5, 1, 1], vec![1, 7, 1], vec![0, 0, 0]]
    );
    assert_eq!(piles.min_pile_size(), 0);
}

#[test]
fn lowest_height_stays_while_a_lowest_pile_is_left() {
    let mut piles = grid(2, &["1 1", "1 1"]);
    piles.add_logs(3);
    assert_eq!(piles.rows(), &vec![vec![2, 2], vec![2, 1]]);
    assert_eq!(piles.min_pile_size(), 1);
}

#[test]
fn lowest_height_rises_when_the_last_lowest_pile_is_raised() {
    let mut piles = grid(2, &["1 1", "1 1"]);
    piles.add_logs(4);
    assert_eq!(piles.rows(), &vec![vec![2, 2], vec![2, 2]]);
    assert_eq!(piles.min_pile_size(), 2);
}

#[test]
fn lowest_height_is_that_of_the_lowest_pile_after_any_number_of_logs() {
    for logs in 0..40 {
        let mut piles = grid(3, &["9 2 7", "4 4 0", "12 3 5"]);
        assert_eq!(piles.min_pile_size(), 0);
        piles.add_logs(logs);
        assert_eq!(piles.min_pile_size(), lowest(&piles));
    }
}

#[test]
fn no_log_is_lost_and_none_invented() {
    for logs in 0..40 {
        let mut piles = grid(3, &["9 2 7", "4 4 0", "12 3 5"]);
        let before = sum(&piles);
        piles.add_logs(logs);
        assert_eq!(sum(&piles), before + logs as u64);
    }
}

#[test]
fn the_shape_of_the_grid_stays() {
    let mut piles = grid(3, &["9 2 7", "4 4 0", "12 3 5"]);
    piles.add_logs(17);
    assert_eq!(piles.size(), 3);
    assert_eq!(piles.rows().len(), 3);
    for row in piles.rows() {
        assert_eq!(row.len(), 3);
    }
}

#[test]
fn the_same_grid_and_logs_give_the_same_grid() {
    let mut one = grid(3, &["9 2 7", "4 4 0", "12 3 5"]);
    let mut other = grid(3, &["9 2 7", "4 4 0", "12 3 5"]);
    one.add_logs(23);
    other.add_logs(23);
    assert_eq!(one, other);
    assert_eq!(one.rows(), other.rows());
}

#[test]
fn logs_in_two_turns_are_logs_at_once() {
    let mut at_once = grid(3, &["9 2 7", "4 4 0", "12 3 5"]);
    let mut in_turns = grid(3, &["9 2 7", "4 4 0", "12 3 5"]);
    at_once.add_logs(19);
    in_turns.add_logs(8);
    in_turns.add_logs(11);
    assert_eq!(at_once, in_turns);
}

#[test]
fn many_logs_level_the_grid() {
    let mut piles = grid(3, &["9 2 7", "4 4 0", "12 3 5"]);
    // 62 logs bring every pile to 12.
    piles.add_logs(62);
    assert_eq!(
        piles.rows(),
        &vec![vec![12, 12, 12], vec![12, 12, 12], vec![12, 12, 12]]
    );
    piles.add_logs(1);
    assert_eq!(
        piles.rows(),
        &vec![vec![13, 12, 12], vec![12, 12, 12], vec![12, 12, 12]]
    );
    assert_eq!(piles.min_pile_size(), 12);
}

#[test]
fn room_is_what_is_missing_to_the_tallest_possible_piles() {
    let full = grid(1, &["4294967295"]);
    assert!(full.has_room(0));
    assert!(!full.has_room(1));

    let nearly = grid(2, &["4294967295 4294967290", "4294967295 4294967294"]);
    assert!(nearly.has_room(0));
    assert!(nearly.has_room(6));
    assert!(!nearly.has_room(7));
    assert!(!nearly.has_room(usize::MAX));

    let empty = grid(1, &["0"]);
    assert!(empty.has_room(4294967295));
}

#[test]
fn piles_can_be_filled_to_the_brim() {
    let mut piles = grid(2, &["4294967295 4294967290", "4294967295 4294967294"]);
    piles.add_logs(6);
    assert_eq!(
        piles.rows(),
        &vec![
            vec![4294967295, 4294967295],
            vec![4294967295, 4294967295]
        ]
    );
    assert_eq!(piles.min_pile_size(), 4294967295);
    assert!(!piles.has_room(1));
}
