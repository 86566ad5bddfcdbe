//! Duplicate checks for lines, columns and regions, and the typed errors
//! they report.

use vstd::prelude::*;

use crate::grid::{region_to_location, BoxLocation, GridValues};
use crate::model::{
    col_seq, col_valid, dup_at, dup_free, first_dup, grid_valid, lemma_first_dup_none,
    lemma_first_dup_skip, region_anchor_column, region_anchor_line, region_seq, region_valid,
    row_valid, wf_grid,
};

verus! {

/// The dimension in which a duplicate was found.
#[derive(Debug, Clone, Copy, PartialEq, Eq, Structural)]
pub enum ValidationErrorType {
    LINE,
    COLUMN,
    REGION,
}

/// A duplicate of `duplicated_pos` was found in line, column or region `index`.
#[derive(Debug, Clone, Copy, PartialEq, Eq, Structural)]
pub struct ValidationError {
    pub err_type: ValidationErrorType,
    pub index: usize,
    pub duplicated_pos: usize,
}

/// The error `validate_new_box` reports on grid `g` at `loc`: the first
/// failing dimension in line, column, region order, with the first
/// duplicated value of its scan.
pub open spec fn new_box_error(g: Seq<Seq<u8>>, loc: BoxLocation) -> ValidationError {
    if !row_valid(g, loc.line as int) {
        ValidationError {
            err_type: ValidationErrorType::LINE,
            index: loc.line,
            duplicated_pos: first_dup(g[loc.line as int])->Some_0 as usize,
        }
    } else if !col_valid(g, loc.column as int) {
        ValidationError {
            err_type: ValidationErrorType::COLUMN,
            index: loc.column,
            duplicated_pos: first_dup(col_seq(g, loc.column as int))->Some_0 as usize,
        }
    } else {
        ValidationError {
            err_type: ValidationErrorType::REGION,
            index: loc.region as usize,
            duplicated_pos: first_dup(region_seq(g, loc.region as int))->Some_0 as usize,
        }
    }
}

/// The single box location checked on validation round `i` of `validate`.
pub open spec fn validate_round(i: int) -> BoxLocation {
    BoxLocation { line: i as usize, column: i as usize, region: i as u8 }
}

/// Index `i` passes all three checks of one `validate` round.
pub open spec fn round_valid(g: Seq<Seq<u8>>, i: int) -> bool {
    row_valid(g, i) && col_valid(g, i) && region_valid(g, i)
}

/// The first index in `j..9` that fails a `validate` round, or 9 if none does.
pub open spec fn first_invalid_from(g: Seq<Seq<u8>>, j: int) -> int
    decreases 9 - j,
{
    if j < 0 || j >= 9 {
        9
    } else if !round_valid(g, j) {
        j
    } else {
        first_invalid_from(g, j + 1)
    }
}

proof fn lemma_first_invalid_skip(g: Seq<Seq<u8>>, j: int)
    requires
        0 <= j <= 9,
        forall|i: int| 0 <= i < j ==> round_valid(g, i),
    ensures
        first_invalid_from(g, 0) == first_invalid_from(g, j),
    decreases j,
{
    if j > 0 {
        lemma_first_invalid_skip(g, j - 1);
    }
}

/// Checks no duplication of values for every line, column and region.
pub fn validate(values: &GridValues) -> (r: Result<(), ValidationError>)
    requires
        wf_grid(values.deep_view()),
    ensures
        r is Ok <==> grid_valid(values.deep_view()),
        r is Err ==> ({
            let g = values.deep_view();
            let i = first_invalid_from(g, 0);
            &&& 0 <= i < 9
            &&& !round_valid(g, i)
            &&& forall|jj: int| 0 <= jj < i ==> round_valid(g, jj)
            &&& r->Err_0 == new_box_error(g, validate_round(i))
        }),
{
    let ghost g = values.deep_view();
    let mut index: usize = 0;
    while index < 9
        invariant
            index <= 9,
            wf_grid(g),
            g == values.deep_view(),
            forall|i: int| 0 <= i < index ==> round_valid(g, i),
        decreases 9 - index,
    {
        let result = validate_new_box(
            values,
            &BoxLocation { line: index, column: index, region: index as u8 },
        );

        match result {
            Ok(_) => {},
            Err(err) => {
                proof {
                    lemma_first_invalid_skip(g, index as int);
                    assert(!round_valid(g, index as int));
                    assert(first_invalid_from(g, index as int) == index as int);
                    assert(!grid_valid(g)) by {
                        if grid_valid(g) {
                            assert(row_valid(g, index as int) && col_valid(g, index as int)
                                && region_valid(g, index as int));
                        }
                    }
                    assert(err == new_box_error(g, validate_round(index as int)));
                }
                return Err(err);
            },
        }

        index += 1;
    }

    proof {
        assert(grid_valid(g)) by {
            assert forall|i: int| 0 <= i < 9 implies #[trigger] row_valid(g, i) && col_valid(g, i)
                && region_valid(g, i) by {
                assert(round_valid(g, i));
            }
        }
    }
    Ok(())
}

/// Checks the line, the column and the region that contain `box_location`,
/// in that order, and reports the first duplicate found.
pub fn validate_new_box(values: &GridValues, box_location: &BoxLocation) -> (r: Result<
    (),
    ValidationError,
>)
    requires
        wf_grid(values.deep_view()),
        box_location.in_bounds(),
    ensures
        r is Ok <==> (row_valid(values.deep_view(), box_location.line as int) && col_valid(
            values.deep_view(),
            box_location.column as int,
        ) && region_valid(values.deep_view(), box_location.region as int)),
        r is Err ==> r->Err_0 == new_box_error(values.deep_view(), *box_location),
{
    proof {
        lemma_first_dup_none(values.deep_view()[box_location.line as int]);
        lemma_first_dup_none(col_seq(values.deep_view(), box_location.column as int));
        lemma_first_dup_none(region_seq(values.deep_view(), box_location.region as int));
    }
    let line = box_location.line;
    let column = box_location.column;
    let region = box_location.region;

    let (line_ok, wrong_line_value) = is_line_valid(values, &line);

    if !line_ok {
        return Err(ValidationError {
            err_type: ValidationErrorType::LINE,
            index: line,
            duplicated_pos: wrong_line_value.unwrap(),
        });
    }

    let (column_ok, wrong_column_value) = is_column_valid(values, &column);

    if !column_ok {
        return Err(ValidationError {
            err_type: ValidationErrorType::COLUMN,
            index: column,
            duplicated_pos: wrong_column_value.unwrap(),
        });
    }

    let (region_ok, wrong_region_value) = is_region_valid(values, &region);

    if !region_ok {
        return Err(ValidationError {
            err_type: ValidationErrorType::REGION,
            index: region as usize,
            duplicated_pos: wrong_region_value.unwrap(),
        });
    }

    Ok(())
}

/// Scans one line for a duplicated known value.
pub fn is_line_valid(values: &GridValues, line_index: &usize) -> (r: (bool, Option<usize>))
    requires
        wf_grid(values.deep_view()),
        *line_index < 9,
    ensures
        r.0 <==> dup_free(values.deep_view()[*line_index as int]),
        r.1 == first_dup_as_usize(values.deep_view()[*line_index as int]),
{
    let row = &values[*line_index];
    proof {
        assert(row@ =~= values.deep_view()[*line_index as int]);
        lemma_first_dup_none(values.deep_view()[*line_index as int]);
    }
    first_dup_scan(row)
}

/// Scans one column for a duplicated known value.
pub fn is_column_valid(values: &GridValues, column_index: &usize) -> (r: (bool, Option<usize>))
    requires
        wf_grid(values.deep_view()),
        *column_index < 9,
    ensures
        r.0 <==> dup_free(col_seq(values.deep_view(), *column_index as int)),
        r.1 == first_dup_as_usize(col_seq(values.deep_view(), *column_index as int)),
{
    let ghost g = values.deep_view();
    let mut column: Vec<u8> = Vec::new();
    let mut i: usize = 0;
    while i < 9
        invariant
            i <= 9,
            *column_index < 9,
            wf_grid(g),
            g == values.deep_view(),
            column@.len() == i,
            forall|k: int| 0 <= k < i ==> column@[k] == col_seq(g, *column_index as int)[k],
        decreases 9 - i,
    {
        proof {
            assert(values@[i as int]@ =~= g[i as int]);
        }
        column.push(values[i][*column_index]);
        i += 1;
    }
    proof {
        assert(column@ =~= col_seq(g, *column_index as int));
        lemma_first_dup_none(column@);
    }
    first_dup_scan(&column)
}

/// Scans one region for a duplicated known value, in row-major order.
pub fn is_region_valid(values: &GridValues, region_index: &u8) -> (r: (bool, Option<usize>))
    requires
        wf_grid(values.deep_view()),
        *region_index < 9,
    ensures
        r.0 <==> dup_free(region_seq(values.deep_view(), *region_index as int)),
        r.1 == first_dup_as_usize(region_seq(values.deep_view(), *region_index as int)),
{
    let ghost g = values.deep_view();
    let (start_row, start_column) = region_to_location(region_index);

    let mut cells: Vec<u8> = Vec::new();
    let mut i: usize = 0;
    while i < 9
        invariant
            i <= 9,
            *region_index < 9,
            wf_grid(g),
            g == values.deep_view(),
            start_row == region_anchor_line(*region_index as int),
            start_column == region_anchor_column(*region_index as int),
            start_row <= 6 && start_column <= 6,
            cells@.len() == i,
            forall|k: int| 0 <= k < i ==> cells@[k] == region_seq(g, *region_index as int)[k],
        decreases 9 - i,
    {
        proof {
            assert(values@[(start_row + i / 3) as int]@ =~= g[(start_row + i / 3) as int]);
        }
        cells.push(values[start_row + i / 3][start_column + i % 3]);
        i += 1;
    }
    proof {
        assert(cells@ =~= region_seq(g, *region_index as int));
        lemma_first_dup_none(cells@);
    }
    first_dup_scan(&cells)
}

/// The first duplicated value of a scan, widened as the error type carries it.
pub open spec fn first_dup_as_usize(s: Seq<u8>) -> Option<usize> {
    match first_dup(s) {
        Some(v) => Some(v as usize),
        None => None,
    }
}

/// Left-to-right duplicate scan shared by the three dimension checks.
fn first_dup_scan(s: &Vec<u8>) -> (r: (bool, Option<usize>))
    ensures
        r.0 <==> first_dup(s@) is None,
        r.1 == first_dup_as_usize(s@),
{
    let mut j: usize = 0;
    while j < s.len()
        invariant
            j <= s@.len(),
            forall|jj: int| 0 <= jj < j ==> !dup_at(s@, jj),
        decreases s@.len() - j,
    {
        if s[j] != 0 {
            let mut i: usize = 0;
            while i < j
                invariant
                    i <= j,
                    j < s@.len(),
                    s@[j as int] != 0,
                    forall|jj: int| 0 <= jj < j ==> !dup_at(s@, jj),
                    forall|ii: int| 0 <= ii < i ==> s@[ii] != s@[j as int],
                decreases j - i,
            {
                if s[i] == s[j] {
                    proof {
                        assert(dup_at(s@, j as int)) by {
                            assert(0 <= (i as int) && (i as int) < (j as int) && s@[i as int] == s@[j as int]);
                        }
                        lemma_first_dup_skip(s@, j as int);
                    }
                    return (false, Some(s[j] as usize));
                }
                i += 1;
            }
            proof {
                assert(!dup_at(s@, j as int));
            }
        } else {
            proof {
                assert(!dup_at(s@, j as int));
            }
        }
        j += 1;
    }
    proof {
        lemma_first_dup_skip(s@, s@.len() as int);
    }
    (true, None)
}

/// The one character std's decimal formatting gives a value below ten.
pub open spec fn digit_char(d: int) -> char {
    if d == 0 {
        '0'
    } else if d == 1 {
        '1'
    } else if d == 2 {
        '2'
    } else if d == 3 {
        '3'
    } else if d == 4 {
        '4'
    } else if d == 5 {
        '5'
    } else if d == 6 {
        '6'
    } else if d == 7 {
        '7'
    } else if d == 8 {
        '8'
    } else {
        '9'
    }
}

/// The text a validation error renders to, for the indices and values the
/// validator produces (all below ten).
pub open spec fn validation_message_view(e: ValidationError) -> Seq<char> {
    zone_view(e.err_type) + " index "@ + seq![digit_char(e.index as int)]
        + " is not valid, duplicate value "@ + seq![digit_char(e.duplicated_pos as int)]
}

/// The name of a failing dimension.
pub open spec fn zone_view(t: ValidationErrorType) -> Seq<char> {
    match t {
        ValidationErrorType::LINE => "Line"@,
        ValidationErrorType::COLUMN => "Column"@,
        ValidationErrorType::REGION => "Region"@,
    }
}

/// Relies on std's `format!`: `Display` for `usize` renders the decimal
/// digits, a single one for values below ten.
#[verifier::external_body]
fn format_validation_message(zone: &str, index: usize, duplicate: usize) -> (r: String)
    ensures
        index <= 9 && duplicate <= 9 ==> r@ == zone@ + " index "@ + seq![
            digit_char(index as int),
        ] + " is not valid, duplicate value "@ + seq![digit_char(duplicate as int)],
{
    format!("{} index {} is not valid, duplicate value {}", zone, index, duplicate)
}

impl ValidationError {
    /// The error as text: the failing dimension, its index, and the duplicate.
    pub fn message(&self) -> (r: String)
        ensures
            self.index <= 9 && self.duplicated_pos <= 9 ==> r@ == validation_message_view(*self),
    {
        let zone = match self.err_type {
            ValidationErrorType::LINE => "Line",
            ValidationErrorType::COLUMN => "Column",
            ValidationErrorType::REGION => "Region",
        };
        format_validation_message(zone, self.index, self.duplicated_pos)
    }
}

} // verus!
