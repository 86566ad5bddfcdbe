use sabita::codec::{parse_grid_text, render_grid};
use sabita::grid::{FromTextError, Grid, GridError};
use sabita::grid_utils::{grid_values_array_to_vec, ConstGridValues};

const GRID_VALUES_1: ConstGridValues = [
    [3, 9, 1, 2, 8, 6, 5, 7, 4],
    [4, 8, 7, 3, 5, 9, 1, 2, 6],
    [6, 5, 2, 7, 1, 4, 8, 3, 9],
    [8, 7, 5, 4, 3, 1, 6, 9, 2],
    [2, 1, 3, 9, 6, 7, 4, 8, 5],
    [9, 6, 4, 5, 2, 8, 7, 1, 3],
    [1, 4, 9, 6, 7, 3, 2, 5, 8],
    [5, 3, 8, 1, 4, 2, 9, 6, 7],
    [7, 2, 6, 8, 9, 5, 3, 4, 1],
];

#[test]
fn render_then_parse_reproduces_values() {
    let values = grid_values_array_to_vec(GRID_VALUES_1);

    let text = render_grid(&values);
    let read_back = parse_grid_text(&text).unwrap();

    assert_eq!(read_back, values);
}

#[test]
fn grid_round_trips_through_text() {
    let values = grid_values_array_to_vec(GRID_VALUES_1);
    let grid = Grid::new(values.clone()).unwrap();

    let text = grid.to_text();
    let read_back = Grid::from_text(&text).unwrap();

    assert_eq!(read_back.get_values(), values);
}

#[test]
fn render_emits_expected_bytes() {
    let values = grid_values_array_to_vec(GRID_VALUES_1);
    let text = render_grid(&values);

    let expected = b"3,9,1,2,8,6,5,7,4\n\
4,8,7,3,5,9,1,2,6\n\
6,5,2,7,1,4,8,3,9\n\
8,7,5,4,3,1,6,9,2\n\
2,1,3,9,6,7,4,8,5\n\
9,6,4,5,2,8,7,1,3\n\
1,4,9,6,7,3,2,5,8\n\
5,3,8,1,4,2,9,6,7\n\
7,2,6,8,9,5,3,4,1\n";

    assert_eq!(text, expected.to_vec());
}

#[test]
fn surrounding_spaces_are_stripped() {
    let text = b" 1 , 2 ,3\n".to_vec();
    let values = parse_grid_text(&text).unwrap();
    assert_eq!(values, vec![vec![1, 2, 3]]);
}

#[test]
fn empty_token_ends_a_row_early() {
    let text = b"1,2,,9\n4,5\n".to_vec();
    let values = parse_grid_text(&text).unwrap();
    assert_eq!(values, vec![vec![1, 2], vec![4, 5]]);
}

#[test]
fn empty_lines_are_dropped() {
    let text = b"\n\n1,2\n\n".to_vec();
    let values = parse_grid_text(&text).unwrap();
    assert_eq!(values, vec![vec![1, 2]]);
}

#[test]
fn non_numeric_token_is_a_syntax_error() {
    let text = b"1,x,3\n".to_vec();
    assert!(parse_grid_text(&text).is_err());
}

#[test]
fn oversized_number_is_a_syntax_error() {
    let text = b"300\n".to_vec();
    assert!(parse_grid_text(&text).is_err());
}

#[test]
fn from_text_refuses_bad_syntax() {
    let text = b"1,2,zz\n".to_vec();
    match Grid::from_text(&text) {
        Err(FromTextError::Syntax(_)) => {}
        other => panic!("expected a syntax error, got {:?}", other),
    }
}

#[test]
fn from_text_refuses_wrong_shape() {
    let text = b"1,2,3\n".to_vec();
    match Grid::from_text(&text) {
        Err(FromTextError::Refused(GridError::WrongLineCount { count: 1 })) => {}
        other => panic!("expected a shape error, got {:?}", other),
    }
}

#[test]
fn from_text_refuses_out_of_range_value() {
    let mut values = grid_values_array_to_vec(GRID_VALUES_1);
    values[0][0] = 14;
    let mut text: Vec<u8> = Vec::new();
    for row in values.iter() {
        for (j, v) in row.iter().enumerate() {
            if j > 0 {
                text.push(b',');
            }
            for b in v.to_string().bytes() {
                text.push(b);
            }
        }
        text.push(b'\n');
    }
    match Grid::from_text(&text) {
        Err(FromTextError::Refused(GridError::ValueOutOfBound {
            line: 0,
            column: 0,
            value: 14,
        })) => {}
        other => panic!("expected an out-of-bound error, got {:?}", other),
    }
}
