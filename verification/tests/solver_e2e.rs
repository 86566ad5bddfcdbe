use sabita::grid::Grid;
use sabita::grid_utils::{grid_values_array_to_vec, ConstGridValues};
use sabita::validation::validate;

const TO_BE_SOLVED: u8 = 0;

const GRID_VALUES_1: ConstGridValues = [
    [3, 9, 1, 2, 8, 6, 5, 7, 4],
    [4, 8, 7, 3, 5, 9, 1, 2, 6],
    [6, 5, 2, 7, 1, 4, 8, 3, 9],
    [8, 7, 5, 4, 3, 1, 6, 9, 2],
    [2, 1, 3, 9, 6, 7, 4, 8, 5],
    [9, 6, 4, 5, 2, 8, 7, 1, 3],
    [1, 4, 9, 6, 7, 3, 2, 5, 8],
    [5, 3, 8, 1, 4, 2, 9, 6, 7],
    [7, 2, 6, 8, 9, 5, 3, 4, 1],
];

fn solve_test(nb_missing: u8) {
    let original = grid_values_array_to_vec(GRID_VALUES_1);

    let mut to_solve = Grid::new(original.clone()).unwrap();
    to_solve.remove_random_values(nb_missing);

    to_solve.solve().unwrap();
    let res = to_solve.get_values();

    assert!(validate(&res).is_ok(), "Grid isn't valid");

    let mut unsolved_box_found = false;
    for line in res.into_iter() {
        for val in line.into_iter() {
            if val == TO_BE_SOLVED {
                unsolved_box_found = true;
            }
        }
    }
    assert!(
        unsolved_box_found == false,
        "At least one unsolved box remaining"
    );
}

#[test]
fn can_solve_1_missing() {
    solve_test(1);
}

#[test]
fn can_solve_10_missing() {
    solve_test(10);
}

#[test]
fn can_solve_30_missing() {
    solve_test(30);
}

#[test]
fn can_solve_80_missing() {
    solve_test(80);
}

#[test]
fn unsolvable_grid_reports_no_solution() {
    // Cell [0][0] has no candidate at all: its line already holds 1..=8,
    // and the only remaining digit, 9, sits below it in the same column.
    let values = vec![
        vec![TO_BE_SOLVED, 1, 2, 3, 4, 5, 6, 7, 8],
        vec![9, TO_BE_SOLVED, TO_BE_SOLVED, TO_BE_SOLVED, TO_BE_SOLVED, TO_BE_SOLVED, TO_BE_SOLVED, TO_BE_SOLVED, TO_BE_SOLVED],
        vec![TO_BE_SOLVED; 9],
        vec![TO_BE_SOLVED; 9],
        vec![TO_BE_SOLVED; 9],
        vec![TO_BE_SOLVED; 9],
        vec![TO_BE_SOLVED; 9],
        vec![TO_BE_SOLVED; 9],
        vec![TO_BE_SOLVED; 9],
    ];

    let mut grid = match Grid::new(values) {
        Ok(grid) => grid,
        Err(err) => panic!("seed grid should be accepted: {:?}", err),
    };
    let result = grid.solve();
    assert!(result.is_err());
}
