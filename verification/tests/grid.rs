use sabita::grid::{Grid, GridError};
use sabita::grid_utils::{grid_values_array_to_vec, ConstGridValues};
use sabita::validation::{ValidationError, ValidationErrorType};

const TO_BE_SOLVED: u8 = 0;

const GRID_VALUES_1: ConstGridValues = [
    [3, 9, 1, 2, 8, 6, 5, 7, 4],
    [4, 8, 7, 3, 5, 9, 1, 2, 6],
    [6, 5, 2, 7, 1, 4, 8, 3, 9],
    [8, 7, 5, 4, 3, 1, 6, 9, 2],
    [2, 1, 3, 9, 6, 7, 4, 8, 5],
    [9, 6, 4, 5, 2, 8, 7, 1, 3],
    [1, 4, 9, 6, 7, 3, 2, 5, 8],
    [5, 3, 8, 1, 4, 2, 9, 6, 7],
    [7, 2, 6, 8, 9, 5, 3, 4, 1],
];

const GRID_VALUES_2: ConstGridValues = [
    [3, 9, 2, 1, 8, 6, 5, 7, 4],
    [4, 8, 7, 3, 5, 9, 2, 1, 6],
    [6, 5, 1, 7, 2, 4, 8, 3, 9],
    [8, 7, 5, 4, 3, 2, 6, 9, 1],
    [1, 2, 3, 9, 6, 7, 4, 8, 5],
    [9, 6, 4, 5, 1, 8, 7, 2, 3],
    [2, 4, 9, 6, 7, 3, 1, 5, 8],
    [5, 3, 8, 2, 4, 1, 9, 6, 7],
    [7, 1, 6, 8, 9, 5, 3, 4, 2],
];

#[test]
fn valid_complete_grid() {
    let grid = Grid::new(vec![
        vec![3, 9, 1, 2, 8, 6, 5, 7, 4],
        vec![4, 8, 7, 3, 5, 9, 1, 2, 6],
        vec![6, 5, 2, 7, 1, 4, 8, 3, 9],
        vec![8, 7, 5, 4, 3, 1, 6, 9, 2],
        vec![2, 1, 3, 9, 6, 7, 4, 8, 5],
        vec![9, 6, 4, 5, 2, 8, 7, 1, 3],
        vec![1, 4, 9, 6, 7, 3, 2, 5, 8],
        vec![5, 3, 8, 1, 4, 2, 9, 6, 7],
        vec![7, 2, 6, 8, 9, 5, 3, 4, 1],
    ]);
    assert!(grid.is_ok());
}

#[test]
fn valid_incomplete_grid() {
    let grid = Grid::new(vec![
        vec![3, 9, 1, 2, 8, 6, 5, 7, TO_BE_SOLVED],
        vec![4, 8, 7, 3, 5, 9, 1, 2, TO_BE_SOLVED],
        vec![6, 5, 2, 7, 1, 4, 8, 3, TO_BE_SOLVED],
        vec![8, 7, 5, 4, 3, 1, 6, 9, TO_BE_SOLVED],
        vec![2, 1, 3, 9, 6, 7, 4, 8, TO_BE_SOLVED],
        vec![9, 6, 4, 5, 2, 8, 7, TO_BE_SOLVED, 3],
        vec![1, 4, 9, 6, 7, 3, TO_BE_SOLVED, 5, 8],
        vec![TO_BE_SOLVED, 3, 8, 1, 4, 2, 9, 6, 7],
        vec![7, 2, 6, TO_BE_SOLVED, 9, 5, 3, 4, 1],
    ]);
    assert!(grid.is_ok());
}

#[test]
fn construction_round_trips_exactly() {
    let values = grid_values_array_to_vec(GRID_VALUES_1);
    let grid = Grid::new(values.clone()).unwrap();
    assert_eq!(grid.get_values(), values);
}

#[test]
fn empty_grid_is_refused() {
    let grid = Grid::new(vec![]);
    assert_eq!(grid.unwrap_err(), GridError::WrongLineCount { count: 0 });
}

#[test]
fn short_line_is_refused() {
    let mut values = grid_values_array_to_vec(GRID_VALUES_1);
    values[5] = vec![9, 6, 4, 5, 2, 8, 7, 1];
    let grid = Grid::new(values);
    assert_eq!(
        grid.unwrap_err(),
        GridError::WrongColumnCount { line: 5, count: 8 }
    );
}

#[test]
fn value_out_of_bound_is_refused() {
    let mut values = grid_values_array_to_vec(GRID_VALUES_1);
    values[2][4] = 10;
    let grid = Grid::new(values);
    assert_eq!(
        grid.unwrap_err(),
        GridError::ValueOutOfBound { line: 2, column: 4, value: 10 }
    );
}

#[test]
fn duplicate_in_line_is_refused() {
    let mut values = grid_values_array_to_vec(GRID_VALUES_1);
    values[0][1] = 3;
    let grid = Grid::new(values);
    assert_eq!(
        grid.unwrap_err(),
        GridError::Validation(ValidationError {
            err_type: ValidationErrorType::LINE,
            index: 0,
            duplicated_pos: 3,
        })
    );
}

#[test]
fn duplicate_in_column_is_refused() {
    let mut values = grid_values_array_to_vec(GRID_VALUES_1);
    values[7][1] = 5;
    values[7][0] = TO_BE_SOLVED;
    let grid = Grid::new(values);
    let err = grid.unwrap_err();
    match err {
        GridError::Validation(validation) => {
            assert_eq!(validation.err_type, ValidationErrorType::COLUMN);
            assert_eq!(validation.index, 1);
            assert_eq!(validation.duplicated_pos, 5);
            assert_eq!(
                validation.message(),
                "Column index 1 is not valid, duplicate value 5"
            );
        }
        other => panic!("wrong error kind: {:?}", other),
    }
}

#[test]
fn remove_1_random_value() {
    let values = grid_values_array_to_vec(GRID_VALUES_1);
    let mut grid = Grid::new(values.clone()).unwrap();

    let nb_to_remove = 1;

    grid.remove_random_values(nb_to_remove);
    let missing = grid.locate_missing_box();

    assert_eq!(missing.len(), nb_to_remove as usize);
    assert_ne!(values, grid.get_values());
}

#[test]
fn remove_20_random_value() {
    let values = grid_values_array_to_vec(GRID_VALUES_2);
    let mut grid = Grid::new(values.clone()).unwrap();

    let nb_to_remove = 20;

    grid.remove_random_values(nb_to_remove);
    let missing = grid.locate_missing_box();

    assert_eq!(missing.len(), nb_to_remove as usize);
    assert_ne!(values, grid.get_values());
}

#[test]
fn remove_80_random_value() {
    let values = grid_values_array_to_vec(GRID_VALUES_2);
    let mut grid = Grid::new(values.clone()).unwrap();

    let nb_to_remove = 80;

    grid.remove_random_values(nb_to_remove);
    let missing = grid.locate_missing_box();

    assert_eq!(missing.len(), nb_to_remove as usize);
    assert_ne!(values, grid.get_values());
}

#[test]
fn solving_complete_grid_returns_it_unchanged() {
    let values = grid_values_array_to_vec(GRID_VALUES_1);
    let mut grid = Grid::new(values.clone()).unwrap();

    grid.solve().unwrap();

    assert_eq!(grid.get_values(), values);
}
