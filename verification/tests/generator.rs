use sabita::constants::LENGTH_DIMENSION;
use sabita::generator::{generate, permute_values};
use sabita::grid::{Grid, GridValues};
use sabita::grid_utils::{grid_values_array_to_vec, ConstGridValues};
use sabita::validation::validate;

const GRID_VALUES_1: ConstGridValues = [
    [3, 9, 1, 2, 8, 6, 5, 7, 4],
    [4, 8, 7, 3, 5, 9, 1, 2, 6],
    [6, 5, 2, 7, 1, 4, 8, 3, 9],
    [8, 7, 5, 4, 3, 1, 6, 9, 2],
    [2, 1, 3, 9, 6, 7, 4, 8, 5],
    [9, 6, 4, 5, 2, 8, 7, 1, 3],
    [1, 4, 9, 6, 7, 3, 2, 5, 8],
    [5, 3, 8, 1, 4, 2, 9, 6, 7],
    [7, 2, 6, 8, 9, 5, 3, 4, 1],
];

#[test]
fn generator_generation() {
    let original: GridValues = grid_values_array_to_vec(GRID_VALUES_1);

    let generated = generate().unwrap();

    assert_ne!(original, generated, "Sudokus should be different");
    assert_eq!(
        generated.len(),
        LENGTH_DIMENSION as usize,
        "Bad number of lines"
    );

    for (index, line) in generated.iter().enumerate() {
        assert_eq!(
            line.len(),
            LENGTH_DIMENSION as usize,
            "Bad number of columns in line {index}"
        );
    }
}

#[test]
fn generator_e2e_generation() {
    let original: GridValues = grid_values_array_to_vec(GRID_VALUES_1);

    let generated = generate().unwrap();

    assert_ne!(original, generated, "Sudokus should be different");
    assert_eq!(
        generated.len(),
        LENGTH_DIMENSION as usize,
        "Bad number of lines"
    );

    for (index, line) in generated.iter().enumerate() {
        assert_eq!(
            line.len(),
            LENGTH_DIMENSION as usize,
            "Bad number of columns in line {index}"
        );
    }
}

#[test]
fn generation_is_complete_and_valid() {
    let generated = generate().unwrap();

    assert!(validate(&generated).is_ok());
    for line in generated.iter() {
        for value in line.iter() {
            assert!(*value >= 1 && *value <= 9);
        }
    }
}

#[test]
fn generation_with_removal_leaves_52_unknown() {
    let grid = Grid::generate(Some(52)).unwrap();

    let missing = grid.locate_missing_box();
    assert_eq!(missing.len(), 52);
}

#[test]
fn generation_without_removal_is_complete() {
    let grid = Grid::generate(None).unwrap();

    assert_eq!(grid.locate_missing_box().len(), 0);
    assert!(validate(&grid.get_values()).is_ok());
}

#[test]
fn permutation_swaps_both_values_everywhere() {
    let mut values = grid_values_array_to_vec(GRID_VALUES_1);
    let original = values.clone();

    permute_values(&mut values, 1, 2);

    for line in 0..9 {
        for column in 0..9 {
            let before = original[line][column];
            let after = values[line][column];
            if before == 1 {
                assert_eq!(after, 2);
            } else if before == 2 {
                assert_eq!(after, 1);
            } else {
                assert_eq!(after, before);
            }
        }
    }

    assert!(validate(&values).is_ok());
}
