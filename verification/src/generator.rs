//! The puzzle generator: seeds the first and the last line with random
//! digit permutations that collide in no column, lets the solver fill the 63
//! remaining cells, and removes random cells to turn a solution into a puzzle.

use vstd::prelude::*;

use crate::grid::{lemma_zero_cell_valid, location_to_region, BoxLocation, GridValues};
use crate::grid_utils::set_cell;
use crate::model::{grid_complete, grid_valid, wf_grid};
use crate::solver::{
    cell_not_missing, lemma_filled_missing_complete, lemma_missing_locs_props, locate_missing_box,
    solve,
};

verus! {

/// The delegated solve found no completion for the random seed.
#[derive(Debug, Clone, Copy, PartialEq, Eq, Structural)]
pub struct GeneratingSudokuError;

/// Relies on rand: `thread_rng().gen_range(0..bound)` returns a value below
/// `bound` and panics only on an empty range, which the precondition rules out.
#[verifier::external_body]
fn random_below(bound: usize) -> (r: usize)
    requires
        bound >= 1,
    ensures
        r < bound,
{
    rand::Rng::gen_range(&mut rand::thread_rng(), 0..bound)
}

/// A uniformly random permutation of the digits 1..=9.
fn random_digit_permutation() -> (r: Vec<u8>)
    ensures
        r@.len() == 9,
        forall|i: int| 0 <= i < 9 ==> 1 <= #[trigger] r@[i] <= 9,
        forall|i: int, j: int| 0 <= i < j < 9 ==> r@[i] != r@[j],
{
    let mut digits: Vec<u8> = Vec::new();
    let mut d: u8 = 1;
    while d <= 9
        invariant
            1 <= d <= 10,
            digits@.len() == d - 1,
            forall|i: int| 0 <= i < d - 1 ==> #[trigger] digits@[i] == i + 1,
        decreases 10 - d,
    {
        digits.push(d);
        d += 1;
    }

    let mut i: usize = 0;
    while i < 9
        invariant
            i <= 9,
            digits@.len() == 9,
            forall|k: int| 0 <= k < 9 ==> 1 <= #[trigger] digits@[k] <= 9,
            forall|k1: int, k2: int| 0 <= k1 < k2 < 9 ==> digits@[k1] != digits@[k2],
        decreases 9 - i,
    {
        let j = i + random_below(9 - i);
        let a = digits[i];
        let b = digits[j];
        digits.set(i, b);
        digits.set(j, a);
        proof {
            assert forall|k1: int, k2: int| 0 <= k1 < k2 < 9 implies digits@[k1] != digits@[k2] by {}
        }
        i += 1;
    }

    digits
}

/// The row rotated left by `shift` positions.
fn rotate_row(row: &Vec<u8>, shift: usize) -> (r: Vec<u8>)
    requires
        row@.len() == 9,
        shift < 9,
    ensures
        r@.len() == 9,
        forall|j: int| 0 <= j < 9 ==> #[trigger] r@[j] == row@[(j + shift) % 9],
{
    let mut r: Vec<u8> = Vec::new();
    let mut j: usize = 0;
    while j < 9
        invariant
            j <= 9,
            shift < 9,
            row@.len() == 9,
            r@.len() == j,
            forall|k: int| 0 <= k < j ==> #[trigger] r@[k] == row@[(k + shift) % 9],
        decreases 9 - j,
    {
        r.push(row[(j + shift) % 9]);
        j += 1;
    }
    r
}

/// Whether some column holds the same value in both rows.
fn rows_collide(a: &Vec<u8>, b: &Vec<u8>) -> (r: bool)
    requires
        a@.len() == 9,
        b@.len() == 9,
    ensures
        r <==> exists|j: int| 0 <= j < 9 && a@[j] == b@[j],
{
    let mut j: usize = 0;
    while j < 9
        invariant
            j <= 9,
            a@.len() == 9,
            b@.len() == 9,
            forall|k: int| 0 <= k < j ==> a@[k] != b@[k],
        decreases 9 - j,
    {
        if a[j] == b[j] {
            return true;
        }
        j += 1;
    }
    false
}

/// A board holding two injective rows at the top and the bottom that agree
/// in no column, and nothing else, satisfies the Sudoku invariant: each of
/// its nine regions meets only one of the two rows.
proof fn lemma_seed_valid(g: Seq<Seq<u8>>, row0: Seq<u8>, row8: Seq<u8>)
    requires
        wf_grid(g),
        g[0] == row0,
        g[8] == row8,
        forall|k: int, m: int|
            #![trigger g[k][m]]
            1 <= k < 8 && 0 <= m < 9 ==> g[k][m] == 0,
        row0.len() == 9,
        row8.len() == 9,
        forall|k1: int, k2: int| 0 <= k1 < k2 < 9 ==> row0[k1] != row0[k2],
        forall|k1: int, k2: int| 0 <= k1 < k2 < 9 ==> row8[k1] != row8[k2],
        forall|j: int| 0 <= j < 9 ==> row0[j] != row8[j],
    ensures
        grid_valid(g),
{
    assert forall|i: int|
        0 <= i < 9 implies #[trigger] crate::model::row_valid(g, i) && crate::model::col_valid(
        g,
        i,
    ) && crate::model::region_valid(g, i) by {
        let row = crate::model::row_seq(g, i);
        assert forall|a: int, b: int|
            #![trigger row[a], row[b]]
            0 <= a < b < row.len() && row[a] == row[b] implies row[b] == 0 by {
            if i == 0 {
                assert(row[a] == row0[a] && row[b] == row0[b]);
            } else if i == 8 {
                assert(row[a] == row8[a] && row[b] == row8[b]);
            } else {
                assert(row[b] == g[i][b]);
            }
        }
        let col = crate::model::col_seq(g, i);
        assert forall|a: int, b: int|
            #![trigger col[a], col[b]]
            0 <= a < b < col.len() && col[a] == col[b] implies col[b] == 0 by {
            if col[b] != 0 {
                assert(col[a] == g[a][i] && col[b] == g[b][i]);
                assert(b == 0 || b == 8);
                assert(a == 0 || a == 8);
                assert(a == 0 && b == 8);
                assert(row0[i] != row8[i]);
            }
        }
        let reg = crate::model::region_seq(g, i);
        let al = crate::model::region_anchor_line(i);
        let ac = crate::model::region_anchor_column(i);
        assert(al == 0 || al == 3 || al == 6) by (nonlinear_arith)
            requires
                0 <= i < 9,
                al == (i / 3) * 3,
        ;
        assert(0 <= ac <= 6) by (nonlinear_arith)
            requires
                0 <= i < 9,
                ac == (i % 3) * 3,
        ;
        assert forall|a: int, b: int|
            #![trigger reg[a], reg[b]]
            0 <= a < b < reg.len() && reg[a] == reg[b] implies reg[b] == 0 by {
            if reg[b] != 0 {
                let ra = al + a / 3;
                let ca = ac + a % 3;
                let rb = al + b / 3;
                let cb = ac + b % 3;
                assert(reg[a] == g[ra][ca] && reg[b] == g[rb][cb]);
                assert(0 <= a / 3 < 3 && 0 <= b / 3 < 3 && 0 <= a % 3 < 3 && 0 <= b % 3 < 3) by (nonlinear_arith)
                    requires
                        0 <= a < 9,
                        0 <= b < 9,
                ;
                assert(ra == 0 || ra == 8);
                assert(rb == 0 || rb == 8);
                assert(ra == rb) by {
                    if al == 0 {
                        assert(ra < 3 && rb < 3);
                    } else {
                        assert(ra >= 6 && rb >= 6);
                    }
                }
                assert(a / 3 == b / 3);
                assert(ca != cb) by (nonlinear_arith)
                    requires
                        0 <= a < b < 9,
                        a / 3 == b / 3,
                        ca == ac + a % 3,
                        cb == ac + b % 3,
                ;
                assert(0 <= ca < 9 && 0 <= cb < 9);
                if ra == 0 {
                    if ca < cb {
                        assert(row0[ca] != row0[cb]);
                    } else {
                        assert(row0[cb] != row0[ca]);
                    }
                } else {
                    if ca < cb {
                        assert(row8[ca] != row8[cb]);
                    } else {
                        assert(row8[cb] != row8[ca]);
                    }
                }
            }
        }
    }
}

/// Generates a complete Sudoku solution.
///
/// The first and the last line are seeded with random digit permutations; the
/// last line is rotated until no column holds the same value twice, falling
/// back to a rotation of the first line itself, which can never collide with
/// it; the seed is valid by construction.  The remaining 63 cells are handed
/// to the solver, and the call fails only when that delegated solve finds no
/// completion for the seed.
pub fn generate() -> (r: Result<GridValues, GeneratingSudokuError>)
    ensures
        r is Ok ==> wf_grid(r->Ok_0.deep_view()) && grid_valid(r->Ok_0.deep_view())
            && grid_complete(r->Ok_0.deep_view()),
{
    let first_row = random_digit_permutation();
    let last_seed = random_digit_permutation();

    let mut last_row = rotate_row(&last_seed, 0);
    let mut found = false;

    let mut shift: usize = 0;
    while shift < 9
        invariant
            first_row@.len() == 9,
            last_seed@.len() == 9,
            last_row@.len() == 9,
            forall|k: int| 0 <= k < 9 ==> 1 <= #[trigger] last_seed@[k] <= 9,
            forall|k1: int, k2: int| 0 <= k1 < k2 < 9 ==> last_seed@[k1] != last_seed@[k2],
            forall|k: int| 0 <= k < 9 ==> 1 <= #[trigger] last_row@[k] <= 9,
            forall|k1: int, k2: int| 0 <= k1 < k2 < 9 ==> last_row@[k1] != last_row@[k2],
            found ==> forall|j: int| 0 <= j < 9 ==> first_row@[j] != last_row@[j],
        decreases 9 - shift,
    {
        let candidate = rotate_row(&last_seed, shift);
        if !rows_collide(&first_row, &candidate) {
            proof {
                assert forall|k1: int, k2: int| 0 <= k1 < k2 < 9 implies candidate@[k1]
                    != candidate@[k2] by {
                    assert(candidate@[k1] == last_seed@[(k1 + shift) % 9]);
                    assert(candidate@[k2] == last_seed@[(k2 + shift) % 9]);
                    assert((k1 + shift) % 9 != (k2 + shift) % 9) by (nonlinear_arith)
                        requires
                            0 <= k1 < k2 < 9,
                            0 <= shift < 9,
                    ;
                }
            }
            last_row = candidate;
            found = true;
            break;
        }
        shift += 1;
    }

    if !found {
        let mut shift: usize = 1;
        while shift < 9
            invariant
                1 <= shift <= 9,
                found || shift <= 1,
                first_row@.len() == 9,
                last_row@.len() == 9,
                forall|k: int| 0 <= k < 9 ==> 1 <= #[trigger] first_row@[k] <= 9,
                forall|k1: int, k2: int| 0 <= k1 < k2 < 9 ==> first_row@[k1] != first_row@[k2],
                forall|k: int| 0 <= k < 9 ==> 1 <= #[trigger] last_row@[k] <= 9,
                forall|k1: int, k2: int| 0 <= k1 < k2 < 9 ==> last_row@[k1] != last_row@[k2],
                found ==> forall|j: int| 0 <= j < 9 ==> first_row@[j] != last_row@[j],
            ensures
                found,
                last_row@.len() == 9,
                forall|k: int| 0 <= k < 9 ==> 1 <= #[trigger] last_row@[k] <= 9,
                forall|k1: int, k2: int| 0 <= k1 < k2 < 9 ==> last_row@[k1] != last_row@[k2],
                forall|j: int| 0 <= j < 9 ==> first_row@[j] != last_row@[j],
            decreases 9 - shift,
        {
            let candidate = rotate_row(&first_row, shift);
            if !rows_collide(&first_row, &candidate) {
                proof {
                    assert forall|k1: int, k2: int| 0 <= k1 < k2 < 9 implies candidate@[k1]
                        != candidate@[k2] by {
                        assert(candidate@[k1] == first_row@[(k1 + shift) % 9]);
                        assert(candidate@[k2] == first_row@[(k2 + shift) % 9]);
                        assert((k1 + shift) % 9 != (k2 + shift) % 9) by (nonlinear_arith)
                            requires
                                0 <= k1 < k2 < 9,
                                0 <= shift < 9,
                        ;
                    }
                }
                last_row = candidate;
                found = true;
                break;
            }
            proof {
                // A rotation of an injective row never collides with it, so
                // the first fallback shift is taken and the loop never spins.
                let j = choose|j: int| 0 <= j < 9 && first_row@[j] == candidate@[j];
                assert(candidate@[j] == first_row@[(j + shift) % 9]);
                assert((j + shift) % 9 != j) by (nonlinear_arith)
                    requires
                        0 <= j < 9,
                        shift == 1,
                ;
                if (j + shift) % 9 < j {
                    assert(first_row@[(j + shift) % 9] != first_row@[j]);
                } else {
                    assert(first_row@[j] != first_row@[(j + shift) % 9]);
                }
                assert(false);
            }
            shift += 1;
        }
    }
    proof {
        assert(found);
    }

    let ghost row0 = first_row@;
    let ghost row8 = last_row@;
    let mut seed: GridValues = Vec::new();
    seed.push(first_row);
    let mut line: usize = 1;
    while line < 8
        invariant
            1 <= line <= 8,
            seed@.len() == line,
            seed@[0]@ == row0,
            row0.len() == 9,
            forall|k: int| 0 <= k < 9 ==> #[trigger] row0[k] <= 9,
            forall|k: int|
                1 <= k < line ==> (#[trigger] seed@[k])@.len() == 9 && forall|m: int|
                    0 <= m < 9 ==> #[trigger] seed@[k]@[m] == 0,
        decreases 8 - line,
    {
        let mut zeros: Vec<u8> = Vec::new();
        let mut c: usize = 0;
        while c < 9
            invariant
                c <= 9,
                zeros@.len() == c,
                forall|k: int| 0 <= k < c ==> #[trigger] zeros@[k] == 0,
            decreases 9 - c,
        {
            zeros.push(0);
            c += 1;
        }
        seed.push(zeros);
        line += 1;
    }
    seed.push(last_row);

    proof {
        assert(wf_grid(seed.deep_view())) by {
            assert(seed@.len() == 9);
            assert forall|rr: int| 0 <= rr < 9 implies (#[trigger] seed.deep_view()[rr]).len()
                == 9 by {
                assert(seed.deep_view()[rr] =~= seed@[rr]@);
                if rr == 8 {
                    assert(seed@[rr]@ == row8);
                }
            }
            assert forall|rr: int, cc: int|
                0 <= rr < 9 && 0 <= cc < 9 implies #[trigger] seed.deep_view()[rr][cc] <= 9 by {
                assert(seed.deep_view()[rr] =~= seed@[rr]@);
                if rr == 8 {
                    assert(seed@[rr]@ == row8);
                }
            }
        }
    }

    proof {
        assert forall|k: int, m: int|
            #![trigger seed.deep_view()[k][m]]
            1 <= k < 8 && 0 <= m < 9 implies seed.deep_view()[k][m] == 0 by {
            assert(seed.deep_view()[k] =~= seed@[k]@);
        }
        assert(seed.deep_view()[0] =~= row0);
        assert(seed.deep_view()[8] =~= row8);
        lemma_seed_valid(seed.deep_view(), row0, row8);
    }
    let modified = seed;

    let missing_locations = locate_missing_box(&modified);
    proof {
        lemma_missing_locs_props(modified.deep_view());
    }

    match solve(&modified, &missing_locations) {
        Ok(to_return) => {
            proof {
                lemma_filled_missing_complete(modified.deep_view(), to_return.deep_view());
            }
            Ok(to_return)
        },
        Err(_) => Err(GeneratingSudokuError),
    }
}

/// A value after swapping the roles of `a` and `b`.
pub open spec fn swapped(x: u8, a: u8, b: u8) -> u8 {
    if x == a {
        b
    } else if x == b {
        a
    } else {
        x
    }
}

/// Zeroes `nb_to_remove` distinct random cells of a copy of the board and
/// returns it with the locations removed.  A valid board stays valid, and a
/// cell is unknown afterwards exactly when it was removed or already unknown.
pub fn remove_random_values(values: &GridValues, nb_to_remove: u8) -> (r: (
    GridValues,
    Vec<BoxLocation>,
))
    requires
        wf_grid(values.deep_view()),
        nb_to_remove < 81,
    ensures
        wf_grid(r.0.deep_view()),
        grid_valid(values.deep_view()) ==> grid_valid(r.0.deep_view()),
        r.1@.len() == nb_to_remove as int,
        forall|m: int| 0 <= m < r.1@.len() ==> (#[trigger] r.1@[m]).wf(),
        forall|m1: int, m2: int|
            0 <= m1 < m2 < r.1@.len() ==> ((#[trigger] r.1@[m1]).line != (#[trigger] r.1@[m2]).line
                || r.1@[m1].column != r.1@[m2].column),
        forall|rr: int, cc: int|
            0 <= rr < 9 && 0 <= cc < 9 ==> #[trigger] r.0.deep_view()[rr][cc] == (
            if cell_not_missing(r.1@, rr, cc) {
                values.deep_view()[rr][cc]
            } else {
                0
            }),
{
    let ghost g0 = values.deep_view();

    let mut positions: Vec<u8> = Vec::new();
    let mut f: u8 = 0;
    while f < 81
        invariant
            f <= 81,
            positions@.len() == f,
            forall|k: int| 0 <= k < f ==> #[trigger] positions@[k] == k,
        decreases 81 - f,
    {
        positions.push(f);
        f += 1;
    }

    let mut i: usize = 0;
    while i < 81
        invariant
            i <= 81,
            positions@.len() == 81,
            forall|k: int| 0 <= k < 81 ==> #[trigger] positions@[k] < 81,
            forall|k1: int, k2: int| 0 <= k1 < k2 < 81 ==> positions@[k1] != positions@[k2],
        decreases 81 - i,
    {
        let j = i + random_below(81 - i);
        let a = positions[i];
        let b = positions[j];
        positions.set(i, b);
        positions.set(j, a);
        i += 1;
    }

    let mut matrix = crate::grid_utils::clone_grid(values);
    let mut loc_removed: Vec<BoxLocation> = Vec::new();

    let n = nb_to_remove as usize;
    let mut k: usize = 0;
    while k < n
        invariant
            k <= n,
            n < 81,
            wf_grid(g0),
            g0 == values.deep_view(),
            positions@.len() == 81,
            forall|m: int| 0 <= m < 81 ==> #[trigger] positions@[m] < 81,
            forall|m1: int, m2: int| 0 <= m1 < m2 < 81 ==> positions@[m1] != positions@[m2],
            loc_removed@.len() == k,
            forall|m: int|
                0 <= m < k ==> (#[trigger] loc_removed@[m]).wf() && loc_removed@[m].line * 9
                    + loc_removed@[m].column == positions@[m],
            wf_grid(matrix.deep_view()),
            matrix@.len() == 9,
            grid_valid(g0) ==> grid_valid(matrix.deep_view()),
            forall|rr: int, cc: int|
                0 <= rr < 9 && 0 <= cc < 9 ==> #[trigger] matrix.deep_view()[rr][cc] == (
                if cell_not_missing(loc_removed@, rr, cc) {
                    g0[rr][cc]
                } else {
                    0
                }),
        decreases n - k,
    {
        let idx = positions[k] as usize;
        let line = idx / 9;
        let column = idx % 9;
        proof {
            assert(line < 9 && column < 9 && line * 9 + column == idx) by (nonlinear_arith)
                requires
                    idx < 81,
                    line == idx / 9,
                    column == idx % 9,
            ;
        }
        let region = match location_to_region(&line, &column) {
            Ok(region) => region,
            Err(_) => {
                proof {
                    assert(false);
                }
                0
            },
        };
        let location = BoxLocation { line, column, region };

        let ghost pre = matrix.deep_view();
        let ghost pre_locs = loc_removed@;
        proof {
            assert(matrix@[line as int]@ =~= pre[line as int]);
        }
        set_cell(&mut matrix, line, column, 0);
        loc_removed.push(location);

        proof {
            if grid_valid(g0) {
                lemma_zero_cell_valid(pre, line as int, column as int);
            }
            crate::model::lemma_grid_set_wf(pre, line as int, column as int, 0);
            assert forall|rr: int, cc: int|
                0 <= rr < 9 && 0 <= cc < 9 implies #[trigger] matrix.deep_view()[rr][cc] == (
            if cell_not_missing(loc_removed@, rr, cc) {
                g0[rr][cc]
            } else {
                0
            }) by {
                assert(loc_removed@ == pre_locs.push(location));
                assert(loc_removed@[k as int] == location);
                assert forall|m: int| 0 <= m < k implies #[trigger] loc_removed@[m]
                    == pre_locs[m] by {}
                if rr == line as int && cc == column as int {
                    assert(!cell_not_missing(loc_removed@, rr, cc));
                } else {
                    assert(matrix.deep_view()[rr][cc] == pre[rr][cc]);
                    if cell_not_missing(pre_locs, rr, cc) {
                        assert(cell_not_missing(loc_removed@, rr, cc)) by {
                            assert forall|m: int|
                                0 <= m < loc_removed@.len() implies !((
                            #[trigger] loc_removed@[m]).line == rr && loc_removed@[m].column
                                == cc) by {
                                if m < k {
                                    assert(loc_removed@[m] == pre_locs[m]);
                                }
                            }
                        }
                    } else {
                        let m = choose|m: int|
                            0 <= m < pre_locs.len() && ((#[trigger] pre_locs[m]).line == rr
                                && pre_locs[m].column == cc);
                        assert(loc_removed@[m] == pre_locs[m]);
                        assert(!cell_not_missing(loc_removed@, rr, cc));
                    }
                }
            }
        }

        k += 1;
    }

    proof {
        assert forall|m1: int, m2: int|
            0 <= m1 < m2 < loc_removed@.len() implies ((#[trigger] loc_removed@[m1]).line
            != (#[trigger] loc_removed@[m2]).line || loc_removed@[m1].column
            != loc_removed@[m2].column) by {
            assert(positions@[m1] != positions@[m2]);
        }
    }

    (matrix, loc_removed)
}

/// Replaces every instance of `value_a` with `value_b` and vice versa.
pub fn permute_values(values: &mut GridValues, value_a: u8, value_b: u8)
    requires
        wf_grid(old(values).deep_view()),
        value_a <= 9,
        value_b <= 9,
    ensures
        wf_grid(final(values).deep_view()),
        forall|rr: int, cc: int|
            0 <= rr < 9 && 0 <= cc < 9 ==> #[trigger] final(values).deep_view()[rr][cc] == swapped(
                old(values).deep_view()[rr][cc],
                value_a,
                value_b,
            ),
{
    let ghost g0 = values.deep_view();

    let mut i: usize = 0;
    while i < 9
        invariant
            i <= 9,
            value_a <= 9,
            value_b <= 9,
            wf_grid(g0),
            g0 == old(values).deep_view(),
            wf_grid(values.deep_view()),
            values@.len() == 9,
            forall|rr: int, cc: int|
                0 <= rr < 9 && 0 <= cc < 9 ==> #[trigger] values.deep_view()[rr][cc] == (
                if rr < i {
                    swapped(g0[rr][cc], value_a, value_b)
                } else {
                    g0[rr][cc]
                }),
        decreases 9 - i,
    {
        let mut j: usize = 0;
        while j < 9
            invariant
                i < 9,
                j <= 9,
                value_a <= 9,
                value_b <= 9,
                wf_grid(g0),
                g0 == old(values).deep_view(),
                wf_grid(values.deep_view()),
                values@.len() == 9,
                forall|rr: int, cc: int|
                    0 <= rr < 9 && 0 <= cc < 9 ==> #[trigger] values.deep_view()[rr][cc] == (
                    if rr < i || (rr == i && cc < j) {
                        swapped(g0[rr][cc], value_a, value_b)
                    } else {
                        g0[rr][cc]
                    }),
            decreases 9 - j,
        {
            proof {
                assert(values@[i as int]@ =~= values.deep_view()[i as int]);
            }
            let val = values[i][j];
            let ghost pre = values.deep_view();
            if val == value_a {
                set_cell(values, i, j, value_b);
                proof {
                    crate::model::lemma_grid_set_wf(pre, i as int, j as int, value_b);
                }
            } else if val == value_b {
                set_cell(values, i, j, value_a);
                proof {
                    crate::model::lemma_grid_set_wf(pre, i as int, j as int, value_a);
                }
            }
            j += 1;
        }
        i += 1;
    }
}

} // verus!
