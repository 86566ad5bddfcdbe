//! The backtracking solver: candidate sets, the complexity-ordered frontier,
//! forward dependency bookkeeping, and the search itself.

use vstd::prelude::*;

use crate::grid::{
    lemma_local_validity, lemma_wf_in_bounds, location_to_region, BoxLocation, GridValues,
};
use crate::grid_utils::{clone_grid, set_cell};
use crate::model::{
    col_seq, dup_free, grid_complete, grid_set, grid_valid, lemma_grid_set_same,
    lemma_grid_set_twice, lemma_grid_set_wf, region_of, region_seq, row_seq, wf_grid,
};
use crate::validation::validate_new_box;

verus! {

/// A specific empty cell admits no candidate at all against the current grid.
#[derive(Debug, Clone)]
pub struct BoxSolutionNotFound {
    pub location: BoxLocation,
}

/// The text the error renders to, for locations on the board.
pub open spec fn box_not_found_view(loc: BoxLocation) -> Seq<char> {
    "Solution of the box ["@ + seq![crate::validation::digit_char(loc.line as int)] + ":"@ + seq![
        crate::validation::digit_char(loc.column as int),
    ] + "]("@ + seq![crate::validation::digit_char(loc.region as int)]
        + ") could'nt be found"@
}

/// Relies on std's `format!`: `Display` for the integer types renders the
/// decimal digits, a single one for values below ten.
#[verifier::external_body]
fn format_box_not_found(line: usize, column: usize, region: u8) -> (r: String)
    ensures
        line <= 9 && column <= 9 && region <= 9 ==> r@ == "Solution of the box ["@ + seq![
            crate::validation::digit_char(line as int),
        ] + ":"@ + seq![crate::validation::digit_char(column as int)] + "]("@ + seq![
            crate::validation::digit_char(region as int),
        ] + ") could'nt be found"@,
{
    format!("Solution of the box [{}:{}]({}) could'nt be found", line, column, region)
}

impl BoxSolutionNotFound {
    /// The error as text, naming the cell without a candidate.
    pub fn message(&self) -> (r: String)
        ensures
            self.location.line <= 9 && self.location.column <= 9 && self.location.region <= 9
                ==> r@ == box_not_found_view(self.location),
    {
        format_box_not_found(self.location.line, self.location.column, self.location.region)
    }
}

/// An empty cell together with its candidate set, computed once against the
/// grid as it stood before the search began.
#[derive(Debug)]
pub struct SortedSolution {
    pub location: BoxLocation,
    pub solutions: Vec<u8>,
}

impl SortedSolution {
    /// The entry as a plain pair, for contracts.
    pub open spec fn view(self) -> (BoxLocation, Seq<u8>) {
        (self.location, self.solutions@)
    }

    /// An exact copy of the entry.
    pub fn duplicate(&self) -> (r: SortedSolution)
        ensures
            r@ == self@,
    {
        let mut solutions: Vec<u8> = Vec::new();
        let mut i: usize = 0;
        while i < self.solutions.len()
            invariant
                i <= self.solutions@.len(),
                solutions@ =~= self.solutions@.subrange(0, i as int),
            decreases self.solutions@.len() - i,
        {
            solutions.push(self.solutions[i]);
            i += 1;
        }
        proof {
            assert(solutions@ =~= self.solutions@);
        }
        SortedSolution { location: self.location, solutions }
    }
}

/// A frontier entry together with the later entries it constrains: those
/// sharing its line, column or region.
#[derive(Debug)]
pub struct InvolvedSolutions {
    pub current_box: SortedSolution,
    pub involved_forward: Vec<SortedSolution>,
}

/// The backtracking search exhausted every branch without completing the grid.
#[derive(Debug, Clone, Copy, PartialEq, Eq, Structural)]
pub struct NoSudokuSolutionFound;

/// Placing `v` in the cell leaves the cell's line, column and region free of
/// duplicates, the scans the solver re-checks after each placement.
pub open spec fn candidate_ok(g: Seq<Seq<u8>>, loc: BoxLocation, v: u8) -> bool {
    let g2 = grid_set(g, loc.line as int, loc.column as int, v);
    &&& dup_free(row_seq(g2, loc.line as int))
    &&& dup_free(col_seq(g2, loc.column as int))
    &&& dup_free(region_seq(g2, loc.region as int))
}

/// The candidates in `v..=9` for the cell, in ascending order.
pub open spec fn candidates_from(g: Seq<Seq<u8>>, loc: BoxLocation, v: u8) -> Seq<u8>
    decreases 10 - v,
{
    if v < 1 || v > 9 {
        Seq::empty()
    } else if candidate_ok(g, loc, v) {
        seq![v] + candidates_from(g, loc, (v + 1) as u8)
    } else {
        candidates_from(g, loc, (v + 1) as u8)
    }
}

/// The full candidate set of the cell: every digit 1..=9 whose placement
/// passes the cell's three scans, in ascending order.
pub open spec fn box_candidates(g: Seq<Seq<u8>>, loc: BoxLocation) -> Seq<u8> {
    candidates_from(g, loc, 1)
}

/// Candidate sequences are strictly ascending digit lists and hold exactly
/// the accepted values.
pub proof fn lemma_candidates_from_props(g: Seq<Seq<u8>>, loc: BoxLocation, v: u8)
    requires
        1 <= v <= 10,
    ensures
        forall|k: int|
            0 <= k < candidates_from(g, loc, v).len() ==> v <= #[trigger] candidates_from(
                g,
                loc,
                v,
            )[k] <= 9,
        forall|k1: int, k2: int|
            0 <= k1 < k2 < candidates_from(g, loc, v).len() ==> candidates_from(g, loc, v)[k1]
                < candidates_from(g, loc, v)[k2],
        forall|u: u8|
            candidates_from(g, loc, v).contains(u) <==> (v <= u <= 9 && candidate_ok(g, loc, u)),
        candidates_from(g, loc, v).len() <= 10 - v,
    decreases 10 - v,
{
    if v <= 9 {
        lemma_candidates_from_props(g, loc, (v + 1) as u8);
        let rest = candidates_from(g, loc, (v + 1) as u8);
        let cur = candidates_from(g, loc, v);
        if candidate_ok(g, loc, v) {
            assert(cur == seq![v] + rest);
            assert forall|u: u8| cur.contains(u) implies (v <= u <= 9 && candidate_ok(
                g,
                loc,
                u,
            )) by {
                let k = choose|k: int| 0 <= k < cur.len() && cur[k] == u;
                if k > 0 {
                    assert(rest[k - 1] == u);
                    assert(rest.contains(u));
                }
            }
            assert forall|u: u8| (v <= u <= 9 && candidate_ok(g, loc, u)) implies cur.contains(
                u,
            ) by {
                if u == v {
                    assert(cur[0] == u);
                } else {
                    assert(rest.contains(u));
                    let k = choose|k: int| 0 <= k < rest.len() && rest[k] == u;
                    assert(cur[k + 1] == u);
                }
            }
        } else {
            assert forall|u: u8| (v <= u <= 9 && candidate_ok(g, loc, u)) implies cur.contains(
                u,
            ) by {
                assert(rest.contains(u));
            }
        }
    } else {
        assert forall|u: u8| candidates_from(g, loc, v).contains(u) implies false by {
            let k = choose|k: int|
                0 <= k < candidates_from(g, loc, v).len() && candidates_from(g, loc, v)[k] == u;
        }
    }
}

/// Computes the candidate set of one empty cell: every digit 1..=9 that the
/// cell's line, column and region scans accept against the current grid.
/// Reports the cell when no digit is accepted.
pub fn get_box_solutions(grid_values: &GridValues, location: &BoxLocation) -> (r: Result<
    Vec<u8>,
    BoxSolutionNotFound,
>)
    requires
        wf_grid(grid_values.deep_view()),
        location.in_bounds(),
    ensures
        r is Ok <==> box_candidates(grid_values.deep_view(), *location).len() > 0,
        r is Ok ==> r->Ok_0@ == box_candidates(grid_values.deep_view(), *location),
        r is Err ==> r->Err_0.location == *location,
{
    let ghost g = grid_values.deep_view();
    let line = location.line;
    let column = location.column;

    let mut answers: Vec<u8> = Vec::new();
    let mut grid_to_test = clone_grid(grid_values);

    proof {
        lemma_grid_set_same(g, line as int, column as int);
    }

    let mut possibility: u8 = 1;
    while possibility <= 9
        invariant
            1 <= possibility <= 10,
            wf_grid(g),
            location.in_bounds(),
            line == location.line,
            column == location.column,
            g == grid_values.deep_view(),
            grid_to_test.deep_view() == grid_set(
                g,
                line as int,
                column as int,
                grid_to_test.deep_view()[line as int][column as int],
            ),
            grid_to_test@.len() == 9,
            grid_to_test.deep_view()[line as int].len() == 9,
            wf_grid(grid_to_test.deep_view()),
            box_candidates(g, *location) == answers@ + candidates_from(g, *location, possibility),
        decreases 10 - possibility,
    {
        let ghost pre = grid_to_test.deep_view();
        set_cell(&mut grid_to_test, line, column, possibility);
        proof {
            lemma_grid_set_twice(g, line as int, column as int, pre[line as int][column as int], possibility);
            assert(grid_to_test.deep_view() == grid_set(g, line as int, column as int, possibility));
            lemma_grid_set_wf(g, line as int, column as int, possibility);
        }

        if validate_new_box(&grid_to_test, location).is_ok() {
            answers.push(possibility);
            proof {
                assert(candidate_ok(g, *location, possibility));
                assert(candidates_from(g, *location, possibility) == seq![possibility]
                    + candidates_from(g, *location, (possibility + 1) as u8));
                assert(answers@ + candidates_from(g, *location, (possibility + 1) as u8)
                    =~= box_candidates(g, *location));
            }
        } else {
            proof {
                assert(!candidate_ok(g, *location, possibility));
                assert(candidates_from(g, *location, possibility) == candidates_from(
                    g,
                    *location,
                    (possibility + 1) as u8,
                ));
            }
        }

        possibility += 1;
    }

    proof {
        assert(candidates_from(g, *location, 10) =~= Seq::<u8>::empty());
        assert(answers@ =~= box_candidates(g, *location));
    }

    if answers.is_empty() {
        Err(BoxSolutionNotFound { location: *location })
    } else {
        Ok(answers)
    }
}

/// The locations of every unknown cell, scanned row-major from flat index `i`.
pub open spec fn missing_from(g: Seq<Seq<u8>>, i: int) -> Seq<BoxLocation>
    decreases 81 - i,
{
    if i < 0 || i >= 81 {
        Seq::empty()
    } else {
        let rest = missing_from(g, i + 1);
        if g[i / 9][i % 9] == 0 {
            seq![
                BoxLocation {
                    line: (i / 9) as usize,
                    column: (i % 9) as usize,
                    region: region_of(i / 9, i % 9) as u8,
                },
            ] + rest
        } else {
            rest
        }
    }
}

/// The locations of every unknown cell, in row-major scan order.
pub open spec fn missing_locs(g: Seq<Seq<u8>>) -> Seq<BoxLocation> {
    missing_from(g, 0)
}

/// A location's place in the row-major scan.
pub open spec fn flat_index(loc: BoxLocation) -> int {
    loc.line * 9 + loc.column
}

/// The missing-location scan lists well-formed locations of unknown cells in
/// strictly increasing scan order, and covers every unknown cell.
pub proof fn lemma_missing_from_props(g: Seq<Seq<u8>>, i: int)
    requires
        wf_grid(g),
        0 <= i <= 81,
    ensures
        forall|k: int|
            0 <= k < missing_from(g, i).len() ==> (#[trigger] missing_from(g, i)[k]).wf() && g[
                missing_from(g, i)[k].line as int
            ][missing_from(g, i)[k].column as int] == 0 && flat_index(missing_from(g, i)[k]) >= i,
        forall|k1: int, k2: int|
            0 <= k1 < k2 < missing_from(g, i).len() ==> flat_index(missing_from(g, i)[k1])
                < flat_index(missing_from(g, i)[k2]),
        forall|r: int, c: int|
            0 <= r < 9 && 0 <= c < 9 && r * 9 + c >= i && g[r][c] == 0 ==> missing_from(
                g,
                i,
            ).contains(
                BoxLocation {
                    line: r as usize,
                    column: c as usize,
                    region: region_of(r, c) as u8,
                },
            ),
    decreases 81 - i,
{
    if i < 81 {
        lemma_missing_from_props(g, i + 1);
        let rest = missing_from(g, i + 1);
        let cur = missing_from(g, i);
        let line = i / 9;
        let col = i % 9;
        assert(0 <= line < 9 && 0 <= col < 9 && line * 9 + col == i) by (nonlinear_arith)
            requires
                0 <= i < 81,
                line == i / 9,
                col == i % 9,
        ;
        assert(0 <= region_of(line, col) < 9);
        if g[line][col] == 0 {
            let loc = BoxLocation {
                line: line as usize,
                column: col as usize,
                region: region_of(line, col) as u8,
            };
            assert(cur == seq![loc] + rest);
            assert(flat_index(loc) == i);
            assert forall|r: int, c: int|
                0 <= r < 9 && 0 <= c < 9 && r * 9 + c >= i && g[r][c] == 0 implies cur.contains(
                BoxLocation { line: r as usize, column: c as usize, region: region_of(r, c) as u8 },
            ) by {
                let lc = BoxLocation {
                    line: r as usize,
                    column: c as usize,
                    region: region_of(r, c) as u8,
                };
                if r == line && c == col {
                    assert(cur[0] == lc);
                } else {
                    assert(r * 9 + c != i) by (nonlinear_arith)
                        requires
                            0 <= r < 9,
                            0 <= c < 9,
                            0 <= i < 81,
                            line == i / 9,
                            col == i % 9,
                            !(r == line && c == col),
                    ;
                    assert(rest.contains(lc));
                    let k = choose|k: int| 0 <= k < rest.len() && rest[k] == lc;
                    assert(cur[k + 1] == lc);
                }
            }
        } else {
            assert forall|r: int, c: int|
                0 <= r < 9 && 0 <= c < 9 && r * 9 + c >= i && g[r][c] == 0 implies cur.contains(
                BoxLocation { line: r as usize, column: c as usize, region: region_of(r, c) as u8 },
            ) by {
                assert(r * 9 + c != i) by (nonlinear_arith)
                    requires
                        0 <= r < 9,
                        0 <= c < 9,
                        0 <= i < 81,
                        line == i / 9,
                        col == i % 9,
                        g[r][c] == 0,
                        g[line][col] != 0,
                ;
                assert(rest.contains(
                    BoxLocation {
                        line: r as usize,
                        column: c as usize,
                        region: region_of(r, c) as u8,
                    },
                ));
            }
        }
    }
}

/// Lists the location of every unknown cell, scanning lines top to bottom and
/// columns left to right.
pub fn locate_missing_box(values: &GridValues) -> (r: Vec<BoxLocation>)
    requires
        wf_grid(values.deep_view()),
    ensures
        r@ == missing_locs(values.deep_view()),
{
    let ghost g = values.deep_view();
    let mut locations: Vec<BoxLocation> = Vec::new();

    let mut line: usize = 0;
    while line < 9
        invariant
            line <= 9,
            wf_grid(g),
            g == values.deep_view(),
            missing_locs(g) == locations@ + missing_from(g, line as int * 9),
        decreases 9 - line,
    {
        let mut column: usize = 0;
        while column < 9
            invariant
                line < 9,
                column <= 9,
                wf_grid(g),
                g == values.deep_view(),
                missing_locs(g) == locations@ + missing_from(g, line as int * 9 + column as int),
            decreases 9 - column,
        {
            let ghost f = line as int * 9 + column as int;
            proof {
                assert(f / 9 == line as int && f % 9 == column as int) by (nonlinear_arith)
                    requires
                        0 <= line < 9,
                        0 <= column < 9,
                        f == line as int * 9 + column as int,
                ;
            }
            let value = values[line][column];
            if value == 0 {
                let region = match location_to_region(&line, &column) {
                    Ok(region) => region,
                    Err(_) => {
                        proof {
                            assert(false);
                        }
                        0
                    },
                };
                let loc = BoxLocation { line, column, region };
                locations.push(loc);
                proof {
                    assert(missing_from(g, f) == seq![loc] + missing_from(g, f + 1));
                    assert(locations@ + missing_from(g, f + 1) =~= missing_locs(g));
                }
            } else {
                proof {
                    assert(values@[line as int]@ =~= g[line as int]);
                    assert(g[f / 9][f % 9] != 0);
                    assert(missing_from(g, f) == missing_from(g, f + 1));
                }
            }
            column += 1;
        }
        proof {
            assert(line as int * 9 + 9 == (line + 1) as int * 9);
        }
        line += 1;
    }

    proof {
        assert(missing_from(g, 81) =~= Seq::<BoxLocation>::empty());
        assert(locations@ =~= missing_locs(g));
    }
    locations
}

/// One frontier entry as contracts speak of it: the cell and its candidates.
pub open spec fn entry_of(g: Seq<Seq<u8>>, loc: BoxLocation) -> (BoxLocation, Seq<u8>) {
    (loc, box_candidates(g, loc))
}

/// The pair `e` is the entry of one of the given locations.
pub open spec fn entry_listed(g: Seq<Seq<u8>>, locs: Seq<BoxLocation>, e: (BoxLocation, Seq<u8>)) -> bool {
    exists|i: int| 0 <= i < locs.len() && e == entry_of(g, #[trigger] locs[i])
}

/// Some element of `out` is the entry of location `locs[i]`.
pub open spec fn loc_covered(
    g: Seq<Seq<u8>>,
    locs: Seq<BoxLocation>,
    out: Seq<SortedSolution>,
    i: int,
) -> bool {
    exists|a: int| 0 <= a < out.len() && (#[trigger] out[a])@ == entry_of(g, locs[i])
}

/// How many candidates a cell has.
pub open spec fn complexity(g: Seq<Seq<u8>>, loc: BoxLocation) -> int {
    box_candidates(g, loc).len() as int
}

/// The given locations whose cell has exactly `k` candidates, in scan order.
pub open spec fn locs_with_complexity(
    g: Seq<Seq<u8>>,
    locs: Seq<BoxLocation>,
    k: int,
) -> Seq<BoxLocation> {
    locs.filter(|l: BoxLocation| complexity(g, l) == k)
}

/// The given locations ordered as the solver visits them, up to candidate
/// count `k`: count ascending, ties in scan order.
pub open spec fn complexity_sorted_upto(
    g: Seq<Seq<u8>>,
    locs: Seq<BoxLocation>,
    k: int,
) -> Seq<BoxLocation>
    decreases k,
{
    if k <= 0 {
        Seq::empty()
    } else {
        complexity_sorted_upto(g, locs, k - 1) + locs_with_complexity(g, locs, k)
    }
}

/// The search order over the missing locations: candidate count ascending,
/// ties in scan order.
pub open spec fn complexity_sorted_locs(g: Seq<Seq<u8>>, locs: Seq<BoxLocation>) -> Seq<
    BoxLocation,
> {
    complexity_sorted_upto(g, locs, 9)
}

/// The cells of a list of frontier entries, in order.
pub open spec fn sorted_cells(v: Seq<SortedSolution>) -> Seq<BoxLocation> {
    Seq::new(v.len(), |a: int| v[a].location)
}

/// Appending a location extends its own complexity bucket and no other.
proof fn lemma_bucket_push(g: Seq<Seq<u8>>, s: Seq<BoxLocation>, k: int, l: BoxLocation)
    ensures
        locs_with_complexity(g, s.push(l), k) == (if complexity(g, l) == k {
            locs_with_complexity(g, s, k).push(l)
        } else {
            locs_with_complexity(g, s, k)
        }),
{
    reveal(Seq::filter);
    assert(s.push(l).drop_last() =~= s);
    assert(s.push(l).last() == l);
}

/// Copies a candidate list.
fn clone_row(v: &Vec<u8>) -> (r: Vec<u8>)
    ensures
        r@ == v@,
{
    let mut r: Vec<u8> = Vec::new();
    let mut i: usize = 0;
    while i < v.len()
        invariant
            i <= v@.len(),
            r@ =~= v@.subrange(0, i as int),
        decreases v@.len() - i,
    {
        r.push(v[i]);
        i += 1;
    }
    proof {
        assert(r@ =~= v@);
    }
    r
}

/// Returns the missing boxes with their candidate sets, ordered by candidate
/// count ascending (most constrained first); entries of equal count keep
/// their scan order.  Fails on the first box with no candidate at all.
#[verifier::rlimit(80)]
pub fn get_solutions_complexity_sorted(
    grid_values: &GridValues,
    missing_boxes: &Vec<BoxLocation>,
) -> (r: Result<Vec<SortedSolution>, BoxSolutionNotFound>)
    requires
        wf_grid(grid_values.deep_view()),
        forall|k: int|
            0 <= k < missing_boxes@.len() ==> (#[trigger] missing_boxes@[k]).in_bounds(),
    ensures
        r is Ok <==> (forall|i: int|
            0 <= i < missing_boxes@.len() ==> complexity(
                grid_values.deep_view(),
                #[trigger] missing_boxes@[i],
            ) > 0),
        r is Err ==> (exists|i: int|
            #![auto]
            0 <= i < missing_boxes@.len() && r->Err_0.location == missing_boxes@[i] && complexity(
                grid_values.deep_view(),
                missing_boxes@[i],
            ) == 0 && forall|j: int|
                0 <= j < i ==> complexity(grid_values.deep_view(), #[trigger] missing_boxes@[j])
                    > 0),
        r is Ok ==> r->Ok_0@.len() == missing_boxes@.len(),
        r is Ok ==> sorted_cells(r->Ok_0@) == complexity_sorted_locs(
            grid_values.deep_view(),
            missing_boxes@,
        ),
        r is Ok ==> (forall|a: int|
            0 <= a < r->Ok_0@.len() ==> entry_listed(
                grid_values.deep_view(),
                missing_boxes@,
                (#[trigger] r->Ok_0@[a])@,
            )),
        r is Ok ==> (forall|i: int|
            0 <= i < missing_boxes@.len() ==> #[trigger] loc_covered(
                grid_values.deep_view(),
                missing_boxes@,
                r->Ok_0@,
                i,
            )),
        r is Ok ==> (forall|a: int, b: int|
            0 <= a < b < r->Ok_0@.len() ==> (#[trigger] r->Ok_0@[a]).solutions@.len()
                <= (#[trigger] r->Ok_0@[b]).solutions@.len()),
        r is Ok && (forall|i: int, j: int|
            0 <= i < j < missing_boxes@.len() ==> #[trigger] missing_boxes@[i]
                != #[trigger] missing_boxes@[j]) ==> (forall|a: int, b: int|
            0 <= a < b < r->Ok_0@.len() ==> (#[trigger] r->Ok_0@[a]).location
                != (#[trigger] r->Ok_0@[b]).location),
        r is Ok && (forall|i: int, j: int|
            0 <= i < j < missing_boxes@.len() ==> #[trigger] missing_boxes@[i]
                != #[trigger] missing_boxes@[j]) ==> (forall|a: int, b: int, i: int, j: int|
            #![trigger r->Ok_0@[a], r->Ok_0@[b], missing_boxes@[i], missing_boxes@[j]]
            0 <= a < b < r->Ok_0@.len() && 0 <= i < missing_boxes@.len() && 0 <= j
                < missing_boxes@.len() && r->Ok_0@[a]@ == entry_of(
                grid_values.deep_view(),
                missing_boxes@[i],
            ) && r->Ok_0@[b]@ == entry_of(grid_values.deep_view(), missing_boxes@[j])
                && r->Ok_0@[a].solutions@.len() == r->Ok_0@[b].solutions@.len() ==> i < j),
{
    let ghost g = grid_values.deep_view();
    let ghost locs = missing_boxes@;
    let n = missing_boxes.len();

    let mut solutions: Vec<Vec<u8>> = Vec::new();
    let mut p: usize = 0;
    while p < n
        invariant
            p <= n,
            n == locs.len(),
            g == grid_values.deep_view(),
            locs == missing_boxes@,
            wf_grid(g),
            forall|k: int| 0 <= k < locs.len() ==> (#[trigger] locs[k]).in_bounds(),
            solutions@.len() == p,
            forall|k: int|
                0 <= k < p ==> (#[trigger] solutions@[k])@ == box_candidates(g, locs[k])
                    && solutions@[k]@.len() > 0,
        decreases n - p,
    {
        match get_box_solutions(grid_values, &missing_boxes[p]) {
            Ok(sols) => {
                solutions.push(sols);
            },
            Err(err) => {
                proof {
                    assert forall|j: int| 0 <= j < p implies complexity(g, #[trigger] locs[j])
                        > 0 by {
                        assert(solutions@[j]@.len() > 0);
                    }
                    assert(complexity(g, locs[p as int]) == 0);
                    assert(err.location == locs[p as int] && complexity(g, locs[p as int]) == 0
                        && (forall|j: int| 0 <= j < p ==> complexity(g, #[trigger] locs[j]) > 0));
                }
                return Err(err);
            },
        }
        p += 1;
    }

    proof {
        assert forall|j: int| 0 <= j < n implies complexity(g, #[trigger] locs[j]) > 0 by {
            assert(solutions@[j]@.len() > 0);
        }
    }

    let mut out: Vec<SortedSolution> = Vec::new();
    let ghost mut src: Seq<int> = Seq::empty();

    let mut k: usize = 1;
    while k <= 9
        invariant
            1 <= k <= 10,
            n == locs.len(),
            g == grid_values.deep_view(),
            locs == missing_boxes@,
            wf_grid(g),
            solutions@.len() == n,
            forall|i: int|
                0 <= i < n ==> (#[trigger] solutions@[i])@ == box_candidates(g, locs[i])
                    && solutions@[i]@.len() > 0,
            src.len() == out@.len(),
            forall|a: int|
                0 <= a < src.len() ==> 0 <= #[trigger] src[a] < n && out@[a].location == locs[src[a]]
                    && out@[a].solutions@ == box_candidates(g, locs[src[a]]),
            forall|a: int| 0 <= a < src.len() ==> complexity(g, locs[#[trigger] src[a]]) < k,
            forall|j: int|
                0 <= j < n && complexity(g, #[trigger] locs[j]) < k ==> exists|a: int|
                    0 <= a < src.len() && src[a] == j,
            forall|a: int, b: int|
                0 <= a < b < src.len() ==> complexity(g, locs[#[trigger] src[a]]) < complexity(
                    g,
                    locs[#[trigger] src[b]],
                ) || (complexity(g, locs[src[a]]) == complexity(g, locs[src[b]]) && src[a]
                    < src[b]),
            sorted_cells(out@) == complexity_sorted_upto(g, locs, k as int - 1),
        decreases 10 - k,
    {
        proof {
            reveal(Seq::filter);
            assert(locs.subrange(0, 0) =~= Seq::<BoxLocation>::empty());
            assert(locs_with_complexity(g, locs.subrange(0, 0), k as int) =~= Seq::<
                BoxLocation,
            >::empty());
            assert(sorted_cells(out@) + locs_with_complexity(g, locs.subrange(0, 0), k as int)
                =~= sorted_cells(out@));
        }
        let mut i: usize = 0;
        while i < n
            invariant
                1 <= k <= 9,
                i <= n,
                n == locs.len(),
                g == grid_values.deep_view(),
                locs == missing_boxes@,
                wf_grid(g),
                solutions@.len() == n,
                forall|ii: int|
                    0 <= ii < n ==> (#[trigger] solutions@[ii])@ == box_candidates(g, locs[ii])
                        && solutions@[ii]@.len() > 0,
                src.len() == out@.len(),
                forall|a: int|
                    0 <= a < src.len() ==> 0 <= #[trigger] src[a] < n && out@[a].location
                        == locs[src[a]] && out@[a].solutions@ == box_candidates(g, locs[src[a]]),
                forall|a: int|
                    0 <= a < src.len() ==> complexity(g, locs[#[trigger] src[a]]) < k || (
                    complexity(g, locs[src[a]]) == k && src[a] < i),
                forall|j: int|
                    0 <= j < n && (complexity(g, #[trigger] locs[j]) < k || (complexity(g, locs[j])
                        == k && j < i)) ==> exists|a: int| 0 <= a < src.len() && src[a] == j,
                forall|a: int, b: int|
                    0 <= a < b < src.len() ==> complexity(g, locs[#[trigger] src[a]]) < complexity(
                        g,
                        locs[#[trigger] src[b]],
                    ) || (complexity(g, locs[src[a]]) == complexity(g, locs[src[b]]) && src[a]
                        < src[b]),
                sorted_cells(out@) == complexity_sorted_upto(g, locs, k as int - 1)
                    + locs_with_complexity(g, locs.subrange(0, i as int), k as int),
            decreases n - i,
        {
            proof {
                assert(complexity(g, locs[i as int]) == solutions@[i as int]@.len());
                assert(locs.subrange(0, i as int + 1) =~= locs.subrange(0, i as int).push(
                    locs[i as int],
                ));
                lemma_bucket_push(g, locs.subrange(0, i as int), k as int, locs[i as int]);
            }
            if solutions[i].len() == k {
                let entry = SortedSolution {
                    location: missing_boxes[i],
                    solutions: clone_row(&solutions[i]),
                };
                let ghost out_before = out@;
                out.push(entry);
                proof {
                    assert(sorted_cells(out@) =~= sorted_cells(out_before).push(locs[i as int]));
                    assert(complexity_sorted_upto(g, locs, k as int - 1) + locs_with_complexity(
                        g,
                        locs.subrange(0, i as int),
                        k as int,
                    ).push(locs[i as int]) =~= sorted_cells(out@));
                    let ghost old_src = src;
                    src = src.push(i as int);
                    assert(src[src.len() - 1] == i as int);
                    assert forall|j: int|
                        0 <= j < n && (complexity(g, #[trigger] locs[j]) < k || (complexity(
                            g,
                            locs[j],
                        ) == k && j < i + 1)) implies exists|a: int|
                        0 <= a < src.len() && src[a] == j by {
                        if j == i as int {
                            assert(src[src.len() - 1] == j);
                        } else {
                            let a = choose|a: int| 0 <= a < old_src.len() && old_src[a] == j;
                            assert(src[a] == j);
                        }
                    }
                }
            } else {
                proof {
                    assert forall|j: int|
                        0 <= j < n && (complexity(g, #[trigger] locs[j]) < k || (complexity(
                            g,
                            locs[j],
                        ) == k && j < i + 1)) implies exists|a: int|
                        0 <= a < src.len() && src[a] == j by {
                        if j != i as int {
                            let a = choose|a: int| 0 <= a < src.len() && src[a] == j;
                        }
                    }
                }
            }
            i += 1;
        }
        proof {
            assert(locs.subrange(0, n as int) =~= locs);
            assert(complexity_sorted_upto(g, locs, k as int) == complexity_sorted_upto(
                g,
                locs,
                k as int - 1,
            ) + locs_with_complexity(g, locs, k as int));
        }
        k += 1;
    }

    proof {
        assert(sorted_cells(out@) == complexity_sorted_locs(g, locs));
        assert forall|i: int| 0 <= i < n implies complexity(g, #[trigger] locs[i]) < 10 by {
            lemma_candidates_from_props(g, locs[i], 1);
        }
        assert forall|i: int| 0 <= i < n implies complexity(g, #[trigger] locs[i]) > 0 by {
            assert(solutions@[i]@.len() > 0);
        }
        assert(src.no_duplicates()) by {
            assert forall|a: int, b: int|
                0 <= a < src.len() && 0 <= b < src.len() && a != b implies src[a] != src[b] by {
                if src[a] == src[b] {
                    if a < b {
                        assert(complexity(g, locs[src[a]]) < complexity(g, locs[src[b]]) || (
                        complexity(g, locs[src[a]]) == complexity(g, locs[src[b]]) && src[a]
                            < src[b]));
                    } else {
                        assert(complexity(g, locs[src[b]]) < complexity(g, locs[src[a]]) || (
                        complexity(g, locs[src[b]]) == complexity(g, locs[src[a]]) && src[b]
                            < src[a]));
                    }
                }
            }
        }
        assert(src.to_set() =~= vstd::set_lib::set_int_range(0, n as int)) by {
            assert forall|x: int|
                vstd::set_lib::set_int_range(0, n as int).contains(x) implies src.to_set().contains(
                x,
            ) by {
                assert(complexity(g, locs[x]) < 10);
                let a = choose|a: int| 0 <= a < src.len() && src[a] == x;
                assert(src.contains(x));
            }
        }
        src.unique_seq_to_set();
        vstd::set_lib::lemma_int_range(0, n as int);
        assert(out@.len() == n);
        assert forall|a: int|
            0 <= a < out@.len() implies entry_listed(g, locs, (#[trigger] out@[a])@) by {
            let i = src[a];
            assert(0 <= i < locs.len() && out@[a]@ == entry_of(g, locs[i]));
        }
        assert forall|i: int|
            0 <= i < locs.len() implies #[trigger] loc_covered(g, locs, out@, i) by {
            assert(complexity(g, locs[i]) < 10);
            assert(exists|a: int| 0 <= a < src.len() && src[a] == i);
            let a = choose|a: int| 0 <= a < src.len() && src[a] == i;
            assert(0 <= src[a] < n && out@[a].location == locs[src[a]] && out@[a].solutions@
                == box_candidates(g, locs[src[a]]));
            assert(0 <= a < out@.len() && out@[a]@ == entry_of(g, locs[i]));
        }
        assert forall|a: int, b: int|
            0 <= a < b < out@.len() implies (#[trigger] out@[a]).solutions@.len()
            <= (#[trigger] out@[b]).solutions@.len() by {
            assert(0 <= src[a] < n && 0 <= src[b] < n);
            assert(out@[a].solutions@ == box_candidates(g, locs[src[a]]));
            assert(out@[b].solutions@ == box_candidates(g, locs[src[b]]));
            assert(complexity(g, locs[src[a]]) <= complexity(g, locs[src[b]]));
        }
        if forall|i: int, j: int|
            0 <= i < j < locs.len() ==> #[trigger] locs[i] != #[trigger] locs[j] {
            assert forall|a: int, b: int|
                0 <= a < b < out@.len() implies (#[trigger] out@[a]).location
                != (#[trigger] out@[b]).location by {
                assert(src[a] != src[b]);
                if src[a] < src[b] {
                    assert(locs[src[a]] != locs[src[b]]);
                } else {
                    assert(locs[src[b]] != locs[src[a]]);
                }
                if out@[a].location == out@[b].location {
                    assert(locs[src[a]] == locs[src[b]]);
                }
            }
            assert forall|a: int, b: int, i: int, j: int|
                #![trigger out@[a], out@[b], locs[i], locs[j]]
                0 <= a < b < out@.len() && 0 <= i < locs.len() && 0 <= j < locs.len() && out@[a]@
                    == entry_of(g, locs[i]) && out@[b]@ == entry_of(g, locs[j])
                    && out@[a].solutions@.len() == out@[b].solutions@.len() implies i < j by {
                assert(out@[a]@ == entry_of(g, locs[src[a]]));
                assert(out@[b]@ == entry_of(g, locs[src[b]]));
                assert(locs[i] == out@[a].location && locs[src[a]] == out@[a].location);
                assert(locs[j] == out@[b].location && locs[src[b]] == out@[b].location);
                assert(i == src[a]) by {
                    if i < src[a] {
                        assert(locs[i] != locs[src[a]]);
                    }
                    if src[a] < i {
                        assert(locs[src[a]] != locs[i]);
                    }
                }
                assert(j == src[b]) by {
                    if j < src[b] {
                        assert(locs[j] != locs[src[b]]);
                    }
                    if src[b] < j {
                        assert(locs[src[b]] != locs[j]);
                    }
                }
                assert(complexity(g, locs[src[a]]) == out@[a].solutions@.len());
                assert(complexity(g, locs[src[b]]) == out@[b].solutions@.len());
                assert(src[a] < src[b]);
            }
        }
    }

    Ok(out)
}

/// Two cells constrain each other: same line, same column or same region.
pub open spec fn shares_constraint(a: BoxLocation, b: BoxLocation) -> bool {
    a.line == b.line || a.column == b.column || a.region == b.region
}

/// The entries of positions `j..` that share a constraint with position `i`,
/// in scan order, as plain pairs.
pub open spec fn forward_from(
    all: Seq<SortedSolution>,
    i: int,
    j: int,
) -> Seq<(BoxLocation, Seq<u8>)>
    decreases all.len() - j,
{
    if j < 0 || j >= all.len() {
        Seq::empty()
    } else {
        let rest = forward_from(all, i, j + 1);
        if shares_constraint(all[i].location, all[j].location) {
            seq![all[j]@] + rest
        } else {
            rest
        }
    }
}

/// A list of frontier entries as the plain pairs contracts speak of.
pub open spec fn entry_views(v: Seq<SortedSolution>) -> Seq<(BoxLocation, Seq<u8>)> {
    Seq::new(v.len(), |b: int| v[b]@)
}

/// For each frontier entry, collects the later entries that share its line,
/// column or region: exactly the ordered subsequence of the entries after it
/// whose location shares a constraint with it.
pub fn get_involved_solutions(box_solutions: &Vec<SortedSolution>) -> (r: Vec<InvolvedSolutions>)
    ensures
        r@.len() == box_solutions@.len(),
        forall|i: int|
            0 <= i < r@.len() ==> (#[trigger] r@[i]).current_box@ == box_solutions@[i]@,
        forall|i: int|
            0 <= i < r@.len() ==> entry_views((#[trigger] r@[i]).involved_forward@)
                == forward_from(box_solutions@, i, i + 1),
{
    let ghost all = box_solutions@;
    let n = box_solutions.len();
    let mut to_return: Vec<InvolvedSolutions> = Vec::new();

    let mut i: usize = 0;
    while i < n
        invariant
            i <= n,
            n == all.len(),
            all == box_solutions@,
            to_return@.len() == i,
            forall|k: int| 0 <= k < i ==> (#[trigger] to_return@[k]).current_box@ == all[k]@,
            forall|k: int|
                0 <= k < i ==> entry_views((#[trigger] to_return@[k]).involved_forward@)
                    == forward_from(all, k, k + 1),
        decreases n - i,
    {
        let current = &box_solutions[i];
        let line = current.location.line;
        let column = current.location.column;
        let region = current.location.region;

        let mut involved_forward: Vec<SortedSolution> = Vec::new();

        proof {
            assert(entry_views(involved_forward@) =~= Seq::<(BoxLocation, Seq<u8>)>::empty());
            assert(Seq::<(BoxLocation, Seq<u8>)>::empty() + forward_from(all, i as int, i as int + 1)
                =~= forward_from(all, i as int, i as int + 1));
        }
        let mut j: usize = i + 1;
        while j < n
            invariant
                i < j <= n,
                i < n,
                n == all.len(),
                all == box_solutions@,
                line == all[i as int].location.line,
                column == all[i as int].location.column,
                region == all[i as int].location.region,
                forward_from(all, i as int, i as int + 1) == entry_views(involved_forward@)
                    + forward_from(all, i as int, j as int),
            decreases n - j,
        {
            let other = &box_solutions[j];
            let same_line = other.location.line == line;
            let same_col = other.location.column == column;
            let same_region = other.location.region == region;

            proof {
                assert(forward_from(all, i as int, j as int) == (
                if shares_constraint(all[i as int].location, all[j as int].location) {
                    seq![all[j as int]@] + forward_from(all, i as int, j as int + 1)
                } else {
                    forward_from(all, i as int, j as int + 1)
                }));
            }

            if same_line || same_col || same_region {
                let copy = other.duplicate();
                let ghost before = involved_forward@;
                involved_forward.push(copy);
                proof {
                    assert(entry_views(involved_forward@) =~= entry_views(before).push(
                        all[j as int]@,
                    ));
                    assert(entry_views(before) + (seq![all[j as int]@] + forward_from(
                        all,
                        i as int,
                        j as int + 1,
                    )) =~= entry_views(involved_forward@) + forward_from(all, i as int, j as int + 1));
                }
            }

            j += 1;
        }

        proof {
            assert(forward_from(all, i as int, n as int) =~= Seq::<(BoxLocation, Seq<u8>)>::empty());
            assert(entry_views(involved_forward@) + forward_from(all, i as int, n as int)
                =~= entry_views(involved_forward@));
        }
        let combo = InvolvedSolutions { current_box: current.duplicate(), involved_forward };
        to_return.push(combo);
        i += 1;
    }

    to_return
}

/// The sequence with the first occurrence of `v` removed, if any.
pub open spec fn remove_first(s: Seq<u8>, v: u8) -> Seq<u8>
    decreases s.len(),
{
    if s.len() == 0 {
        s
    } else if s[0] == v {
        s.drop_first()
    } else {
        seq![s[0]] + remove_first(s.drop_first(), v)
    }
}

proof fn lemma_remove_first_at(s: Seq<u8>, v: u8, p: int)
    requires
        0 <= p < s.len(),
        s[p] == v,
        forall|q: int| 0 <= q < p ==> s[q] != v,
    ensures
        remove_first(s, v) == s.remove(p),
    decreases p,
{
    if p == 0 {
        assert(remove_first(s, v) =~= s.remove(0));
    } else {
        lemma_remove_first_at(s.drop_first(), v, p - 1);
        assert(remove_first(s, v) == seq![s[0]] + s.drop_first().remove(p - 1));
        assert(seq![s[0]] + s.drop_first().remove(p - 1) =~= s.remove(p));
    }
}

proof fn lemma_remove_first_absent(s: Seq<u8>, v: u8)
    requires
        forall|q: int| 0 <= q < s.len() ==> s[q] != v,
    ensures
        remove_first(s, v) == s,
    decreases s.len(),
{
    if s.len() > 0 {
        lemma_remove_first_absent(s.drop_first(), v);
        assert(remove_first(s, v) =~= s);
    }
}

/// The indices at or after `i` of the frontier entries whose candidate list
/// holds `v`, in ascending order.
pub open spec fn affected_from(boxes: Seq<SortedSolution>, v: u8, i: int) -> Seq<usize>
    decreases boxes.len() - i,
{
    if i < 0 || i >= boxes.len() {
        Seq::empty()
    } else {
        let rest = affected_from(boxes, v, i + 1);
        if boxes[i].solutions@.contains(v) {
            seq![i as usize] + rest
        } else {
            rest
        }
    }
}

/// Affected indices are in range and strictly ascending.
pub proof fn lemma_affected_from_props(boxes: Seq<SortedSolution>, v: u8, i: int)
    requires
        0 <= i <= boxes.len(),
        boxes.len() <= usize::MAX,
    ensures
        forall|k: int|
            0 <= k < affected_from(boxes, v, i).len() ==> i <= #[trigger] affected_from(
                boxes,
                v,
                i,
            )[k] < boxes.len(),
        forall|k1: int, k2: int|
            0 <= k1 < k2 < affected_from(boxes, v, i).len() ==> affected_from(boxes, v, i)[k1]
                < affected_from(boxes, v, i)[k2],
    decreases boxes.len() - i,
{
    if i < boxes.len() {
        lemma_affected_from_props(boxes, v, i + 1);
        let rest = affected_from(boxes, v, i + 1);
        let cur = affected_from(boxes, v, i);
        if boxes[i].solutions@.contains(v) {
            assert(cur == seq![i as usize] + rest);
            assert forall|k: int| 0 <= k < cur.len() implies i <= #[trigger] cur[k]
                < boxes.len() by {
                if k > 0 {
                    assert(cur[k] == rest[k - 1]);
                    assert(i + 1 <= rest[k - 1] < boxes.len());
                } else {
                    assert(cur[0] == i as usize);
                }
            }
            assert forall|k1: int, k2: int| 0 <= k1 < k2 < cur.len() implies cur[k1]
                < cur[k2] by {
                if k1 > 0 {
                    assert(cur[k1] == rest[k1 - 1] && cur[k2] == rest[k2 - 1]);
                } else {
                    assert(cur[k2] == rest[k2 - 1]);
                    assert(i + 1 <= rest[k2 - 1]);
                }
            }
        }
    }
}

/// Places `value` at `loc` in the grid and removes it from the candidate
/// list of every involved entry holding it; returns the indices of the
/// entries so pruned, for exact rollback.
pub fn appy_sol(
    grid_copy: &mut GridValues,
    involved_boxes: &mut Vec<SortedSolution>,
    loc: &BoxLocation,
    value: &u8,
) -> (affected: Vec<usize>)
    requires
        loc.line < old(grid_copy)@.len(),
        loc.column < old(grid_copy)@[loc.line as int]@.len(),
    ensures
        final(grid_copy).deep_view() == grid_set(
            old(grid_copy).deep_view(),
            loc.line as int,
            loc.column as int,
            *value,
        ),
        final(grid_copy)@.len() == old(grid_copy)@.len(),
        final(involved_boxes)@.len() == old(involved_boxes)@.len(),
        forall|i: int|
            0 <= i < old(involved_boxes)@.len() ==> (#[trigger] final(involved_boxes)@[i]).location
                == old(involved_boxes)@[i].location && final(involved_boxes)@[i].solutions@
                == remove_first(old(involved_boxes)@[i].solutions@, *value),
        affected@ == affected_from(old(involved_boxes)@, *value, 0),
{
    let ghost orig = involved_boxes@;
    set_cell(grid_copy, loc.line, loc.column, *value);

    let mut affected: Vec<usize> = Vec::new();
    let n = involved_boxes.len();

    let mut i: usize = 0;
    while i < n
        invariant
            i <= n,
            n == orig.len(),
            involved_boxes@.len() == n,
            forall|k: int| i <= k < n ==> #[trigger] involved_boxes@[k] == orig[k],
            forall|k: int|
                0 <= k < i ==> (#[trigger] involved_boxes@[k]).location == orig[k].location
                    && involved_boxes@[k].solutions@ == remove_first(orig[k].solutions@, *value),
            affected_from(orig, *value, 0) == affected@ + affected_from(orig, *value, i as int),
        decreases n - i,
    {
        let ghost sols = orig[i as int].solutions@;

        let mut pos: usize = 0;
        let mut found = false;
        let slen = involved_boxes[i].solutions.len();
        while pos < slen && !found
            invariant
                i < n,
                involved_boxes@.len() == n,
                involved_boxes@[i as int] == orig[i as int],
                sols == orig[i as int].solutions@,
                slen == sols.len(),
                pos <= slen,
                found ==> pos < slen && sols[pos as int] == *value,
                forall|q: int| 0 <= q < pos ==> sols[q] != *value,
            decreases slen - pos + (if found { 0int } else { 1int }),
        {
            if involved_boxes[i].solutions[pos] == *value {
                found = true;
            } else {
                pos += 1;
            }
        }

        if found {
            let mut tmp = SortedSolution {
                location: BoxLocation { line: 0, column: 0, region: 0 },
                solutions: Vec::new(),
            };
            involved_boxes.set_and_swap(i, &mut tmp);
            tmp.solutions.remove(pos);
            involved_boxes.set_and_swap(i, &mut tmp);
            affected.push(i);
            proof {
                assert(involved_boxes@[i as int].solutions@ == sols.remove(pos as int));
                assert forall|q: int| 0 <= q < pos implies sols[q] != *value by {}
                lemma_remove_first_at(sols, *value, pos as int);
                assert(sols.contains(*value));
                assert(affected_from(orig, *value, i as int) == seq![i as usize]
                    + affected_from(orig, *value, i as int + 1));
                assert(affected@ + affected_from(orig, *value, i as int + 1) =~= affected_from(
                    orig,
                    *value,
                    0,
                ));
            }
        } else {
            proof {
                assert forall|q: int| 0 <= q < sols.len() implies sols[q] != *value by {}
                lemma_remove_first_absent(sols, *value);
                if sols.contains(*value) {
                    let q = choose|q: int| 0 <= q < sols.len() && sols[q] == *value;
                    assert(false);
                }
                assert(affected_from(orig, *value, i as int) == affected_from(
                    orig,
                    *value,
                    i as int + 1,
                ));
            }
        }

        i += 1;
    }

    proof {
        assert(affected_from(orig, *value, n as int) =~= Seq::<usize>::empty());
        assert(affected@ =~= affected_from(orig, *value, 0));
    }

    affected
}

/// Resets the cell at `loc` to "unknown" and puts `value` back into the
/// candidate list of each entry that `appy_sol` pruned.
pub fn rollback_sol(
    grid_copy: &mut GridValues,
    involved_boxes: &mut Vec<SortedSolution>,
    loc: &BoxLocation,
    affected_box_solutions: Vec<usize>,
    value: &u8,
)
    requires
        loc.line < old(grid_copy)@.len(),
        loc.column < old(grid_copy)@[loc.line as int]@.len(),
        forall|k: int|
            0 <= k < affected_box_solutions@.len() ==> #[trigger] affected_box_solutions@[k]
                < old(involved_boxes)@.len(),
        forall|k1: int, k2: int|
            0 <= k1 < k2 < affected_box_solutions@.len() ==> affected_box_solutions@[k1]
                != affected_box_solutions@[k2],
    ensures
        final(grid_copy).deep_view() == grid_set(
            old(grid_copy).deep_view(),
            loc.line as int,
            loc.column as int,
            0,
        ),
        final(grid_copy)@.len() == old(grid_copy)@.len(),
        final(involved_boxes)@.len() == old(involved_boxes)@.len(),
        forall|i: int|
            0 <= i < old(involved_boxes)@.len() ==> (#[trigger] final(involved_boxes)@[i]).location
                == old(involved_boxes)@[i].location && final(involved_boxes)@[i].solutions@ == (
            if affected_box_solutions@.contains(i as usize) {
                old(involved_boxes)@[i].solutions@.push(*value)
            } else {
                old(involved_boxes)@[i].solutions@
            }),
{
    let ghost orig = involved_boxes@;
    let ghost aff = affected_box_solutions@;
    let n = involved_boxes.len();
    set_cell(grid_copy, loc.line, loc.column, 0);

    let mut k: usize = 0;
    while k < affected_box_solutions.len()
        invariant
            k <= aff.len(),
            aff == affected_box_solutions@,
            n == orig.len(),
            involved_boxes@.len() == orig.len(),
            forall|kk: int| 0 <= kk < aff.len() ==> #[trigger] aff[kk] < orig.len(),
            forall|k1: int, k2: int| 0 <= k1 < k2 < aff.len() ==> aff[k1] != aff[k2],
            forall|i: int|
                0 <= i < orig.len() ==> (#[trigger] involved_boxes@[i]).location
                    == orig[i].location && involved_boxes@[i].solutions@ == (
                if aff.subrange(0, k as int).contains(i as usize) {
                    orig[i].solutions@.push(*value)
                } else {
                    orig[i].solutions@
                }),
        decreases aff.len() - k,
    {
        let index = affected_box_solutions[k];
        proof {
            if aff.subrange(0, k as int).contains(index) {
                let kk = choose|kk: int|
                    0 <= kk < k && #[trigger] aff.subrange(0, k as int)[kk] == index;
                assert(aff[kk] == aff[k as int]);
                assert(false);
            }
        }
        let mut tmp = SortedSolution {
            location: BoxLocation { line: 0, column: 0, region: 0 },
            solutions: Vec::new(),
        };
        involved_boxes.set_and_swap(index, &mut tmp);
        tmp.solutions.push(*value);
        involved_boxes.set_and_swap(index, &mut tmp);
        proof {
            assert(involved_boxes@[index as int].solutions@ == orig[index as int].solutions@.push(
                *value,
            ));
            assert forall|i: int|
                0 <= i < orig.len() implies (#[trigger] involved_boxes@[i]).location
                == orig[i].location && involved_boxes@[i].solutions@ == (
            if aff.subrange(0, k as int + 1).contains(i as usize) {
                orig[i].solutions@.push(*value)
            } else {
                orig[i].solutions@
            }) by {
                if i == index as int {
                    assert(aff.subrange(0, k as int + 1)[k as int] == index);
                    assert(aff.subrange(0, k as int + 1).contains(i as usize));
                } else {
                    if aff.subrange(0, k as int + 1).contains(i as usize) {
                        let kk = choose|kk: int|
                            0 <= kk < k + 1 && #[trigger] aff.subrange(0, k as int + 1)[kk]
                                == i as usize;
                        assert(kk < k) by {
                            if kk == k as int {
                                assert(aff[kk] == i as usize);
                                assert(aff[k as int] == index);
                                assert(i == index as int);
                            }
                        }
                        assert(aff.subrange(0, k as int)[kk] == i as usize);
                    } else {
                        if aff.subrange(0, k as int).contains(i as usize) {
                            let kk = choose|kk: int|
                                0 <= kk < k && #[trigger] aff.subrange(0, k as int)[kk]
                                    == i as usize;
                            assert(aff.subrange(0, k as int + 1)[kk] == i as usize);
                        }
                    }
                }
            }
        }
        k += 1;
    }

    proof {
        assert(aff.subrange(0, aff.len() as int) =~= aff);
    }
}

/// Outcome of exploring one frontier position.
enum SearchOutcome {
    /// Every position from here on was filled consistently.
    Solved,
    /// No candidate works here; the caller must try its next candidate.
    DeadEnd,
    /// A position whose candidate set had exactly one value failed its scan:
    /// the search gives up at once instead of retreating further.
    Aborted,
}

/// Every frontier location is on the board with its true region, and every
/// candidate is a digit 1..=9.
pub open spec fn frontier_ok(fr: Seq<InvolvedSolutions>) -> bool {
    &&& forall|k: int| 0 <= k < fr.len() ==> (#[trigger] fr[k]).current_box.location.wf()
    &&& forall|k: int, m: int|
        #![trigger fr[k].current_box.solutions@[m]]
        0 <= k < fr.len() && 0 <= m < fr[k].current_box.solutions@.len() ==> 1
            <= fr[k].current_box.solutions@[m] <= 9
}

/// No two frontier positions name the same cell.
pub open spec fn frontier_distinct(fr: Seq<InvolvedSolutions>) -> bool {
    forall|a: int, b: int|
        0 <= a < b < fr.len() ==> ((#[trigger] fr[a]).current_box.location.line
            != (#[trigger] fr[b]).current_box.location.line || fr[a].current_box.location.column
            != fr[b].current_box.location.column)
}

/// The cells of frontier positions `j..` are all unknown in `g`.
pub open spec fn frontier_cells_empty(g: Seq<Seq<u8>>, fr: Seq<InvolvedSolutions>, j: int) -> bool {
    forall|k: int|
        j <= k < fr.len() ==> g[(#[trigger] fr[k]).current_box.location.line as int][fr[k].current_box.location.column as int]
            == 0
}

/// Cell (r, c) is named by no frontier position in `j..`.
pub open spec fn untouched(fr: Seq<InvolvedSolutions>, j: int, r: int, c: int) -> bool {
    forall|k: int|
        j <= k < fr.len() ==> !((#[trigger] fr[k]).current_box.location.line == r
            && fr[k].current_box.location.column == c)
}

/// The frontier's cells, in search order.
pub open spec fn frontier_cells(fr: Seq<InvolvedSolutions>) -> Seq<BoxLocation> {
    Seq::new(fr.len(), |k: int| fr[k].current_box.location)
}

/// Board `a` comes no later than board `b` in the search's enumeration over
/// the cells from position `j` on: at the first cell where they differ, `a`
/// holds the smaller value.
pub open spec fn cells_lex_leq(
    cells: Seq<BoxLocation>,
    j: int,
    a: Seq<Seq<u8>>,
    b: Seq<Seq<u8>>,
) -> bool
    decreases cells.len() - j,
{
    if j < 0 || j >= cells.len() {
        true
    } else {
        let line = cells[j].line as int;
        let column = cells[j].column as int;
        if a[line][column] < b[line][column] {
            true
        } else if a[line][column] == b[line][column] {
            cells_lex_leq(cells, j + 1, a, b)
        } else {
            false
        }
    }
}

/// `s` is a valid complete board that agrees with `g` on every cell not
/// named by frontier positions `j..`: a completion of the rest of the search.
pub open spec fn completes_frontier(
    g: Seq<Seq<u8>>,
    fr: Seq<InvolvedSolutions>,
    j: int,
    s: Seq<Seq<u8>>,
) -> bool {
    &&& wf_grid(s)
    &&& grid_valid(s)
    &&& grid_complete(s)
    &&& forall|rr: int, cc: int|
        0 <= rr < 9 && 0 <= cc < 9 && untouched(fr, j, rr, cc) ==> #[trigger] s[rr][cc] == g[rr][cc]
}

/// Refinement is transitive.
proof fn lemma_refines_trans(a: Seq<Seq<u8>>, b: Seq<Seq<u8>>, c: Seq<Seq<u8>>)
    requires
        grid_refines(a, b),
        grid_refines(b, c),
    ensures
        grid_refines(a, c),
{
    assert forall|r: int, cc: int|
        #![trigger a[r][cc]]
        0 <= r < a.len() && 0 <= cc < a[r].len() implies a[r][cc] == c[r][cc] || a[r][cc] == 0 by {
        assert(a[r][cc] == b[r][cc] || a[r][cc] == 0);
        assert(b[r][cc] == c[r][cc] || b[r][cc] == 0);
    }
}

/// A completion of the open frontier cells is a filling-in of the grid.
proof fn lemma_completes_refines(
    g: Seq<Seq<u8>>,
    fr: Seq<InvolvedSolutions>,
    j: int,
    s: Seq<Seq<u8>>,
)
    requires
        wf_grid(g),
        frontier_cells_empty(g, fr, j),
        completes_frontier(g, fr, j, s),
    ensures
        grid_refines(g, s),
{
    assert forall|r: int, cc: int|
        #![trigger g[r][cc]]
        0 <= r < g.len() && 0 <= cc < g[r].len() implies g[r][cc] == s[r][cc] || g[r][cc] == 0 by {
        if untouched(fr, j, r, cc) {
            assert(s[r][cc] == g[r][cc]);
        } else {
            let k = choose|k: int|
                j <= k < fr.len() && ((#[trigger] fr[k]).current_box.location.line == r
                    && fr[k].current_box.location.column == cc);
            assert(g[r][cc] == 0);
        }
    }
}

/// Placing a completion's own value at the current frontier cell keeps the
/// completion a completion of the remaining positions, and the placed grid a
/// refinement of it.
proof fn lemma_step_completion(
    g0: Seq<Seq<u8>>,
    fr: Seq<InvolvedSolutions>,
    j: int,
    v: u8,
    s: Seq<Seq<u8>>,
)
    requires
        wf_grid(g0),
        0 <= j < fr.len(),
        fr[j].current_box.location.wf(),
        frontier_cells_empty(g0, fr, j),
        completes_frontier(g0, fr, j, s),
        s[fr[j].current_box.location.line as int][fr[j].current_box.location.column as int] == v,
    ensures
        completes_frontier(
            grid_set(g0, fr[j].current_box.location.line as int, fr[j].current_box.location.column as int, v),
            fr,
            j + 1,
            s,
        ),
        grid_refines(
            grid_set(g0, fr[j].current_box.location.line as int, fr[j].current_box.location.column as int, v),
            s,
        ),
{
    let line = fr[j].current_box.location.line as int;
    let column = fr[j].current_box.location.column as int;
    let g1 = grid_set(g0, line, column, v);
    lemma_completes_refines(g0, fr, j, s);
    assert forall|rr: int, cc: int|
        0 <= rr < 9 && 0 <= cc < 9 && untouched(fr, j + 1, rr, cc) implies #[trigger] s[rr][cc]
        == g1[rr][cc] by {
        if rr == line && cc == column {
            assert(g1[rr][cc] == v);
        } else {
            assert(untouched(fr, j, rr, cc)) by {
                assert forall|k: int|
                    j <= k < fr.len() implies !((#[trigger] fr[k]).current_box.location.line == rr
                    && fr[k].current_box.location.column == cc) by {
                    if k == j {
                        assert(!(line == rr && column == cc));
                    }
                }
            }
            assert(s[rr][cc] == g0[rr][cc]);
            assert(g1[rr][cc] == g0[rr][cc]);
        }
    }
    assert forall|r: int, cc: int|
        #![trigger g1[r][cc]]
        0 <= r < g1.len() && 0 <= cc < g1[r].len() implies g1[r][cc] == s[r][cc] || g1[r][cc]
        == 0 by {
        if r == line && cc == column {
            assert(g1[r][cc] == v && s[r][cc] == v);
        } else {
            assert(g1[r][cc] == g0[r][cc]);
            assert(g0[r][cc] == s[r][cc] || g0[r][cc] == 0);
        }
    }
}

/// Copies a forward dependency list.
fn clone_involved(v: &Vec<SortedSolution>) -> (r: Vec<SortedSolution>)
    ensures
        r@.len() == v@.len(),
        forall|b: int| 0 <= b < v@.len() ==> (#[trigger] r@[b])@ == v@[b]@,
{
    let mut r: Vec<SortedSolution> = Vec::new();
    let mut i: usize = 0;
    while i < v.len()
        invariant
            i <= v@.len(),
            r@.len() == i,
            forall|b: int| 0 <= b < i ==> (#[trigger] r@[b])@ == v@[b]@,
        decreases v@.len() - i,
    {
        r.push(v[i].duplicate());
        i += 1;
    }
    r
}

/// Whether some frontier entry has exactly one candidate.  While such an
/// entry exists the dead-end abort shortcut of the search can fire, so the
/// search then explores exactly as the resume-cursor formulation would.
fn has_singleton_choice(frontier: &Vec<InvolvedSolutions>) -> (r: bool)
    ensures
        r <==> exists|k: int|
            0 <= k < frontier@.len() && (#[trigger] frontier@[k]).current_box.solutions@.len()
                == 1,
{
    let mut k: usize = 0;
    while k < frontier.len()
        invariant
            k <= frontier@.len(),
            forall|kk: int|
                0 <= kk < k ==> (#[trigger] frontier@[kk]).current_box.solutions@.len() != 1,
        decreases frontier@.len() - k,
    {
        if frontier[k].current_box.solutions.len() == 1 {
            return true;
        }
        k += 1;
    }
    false
}

/// Value `u` stands somewhere in the line of `loc`.
pub open spec fn appears_in_row(g: Seq<Seq<u8>>, line: int, u: u8) -> bool {
    exists|c: int| 0 <= c < 9 && (#[trigger] g[line][c]) == u
}

/// Value `u` stands somewhere in the column of `loc`.
pub open spec fn appears_in_col(g: Seq<Seq<u8>>, column: int, u: u8) -> bool {
    exists|r: int| 0 <= r < 9 && (#[trigger] g[r][column]) == u
}

/// Value `u` stands somewhere in region `k`.
pub open spec fn appears_in_region(g: Seq<Seq<u8>>, k: int, u: u8) -> bool {
    exists|m: int| 0 <= m < 9 && (#[trigger] region_seq(g, k)[m]) == u
}

/// On a valid grid, an unknown cell admits a digit exactly when the digit
/// stands nowhere in the cell's line, column or region: the values already
/// placed are themselves distinct, so the re-scan can only trip over `u`.
proof fn lemma_admits_iff_absent(g: Seq<Seq<u8>>, loc: BoxLocation, u: u8)
    requires
        wf_grid(g),
        grid_valid(g),
        loc.wf(),
        g[loc.line as int][loc.column as int] == 0,
        1 <= u <= 9,
    ensures
        candidate_ok(g, loc, u) <==> !(appears_in_row(g, loc.line as int, u) || appears_in_col(
            g,
            loc.column as int,
            u,
        ) || appears_in_region(g, loc.region as int, u)),
{
    let line = loc.line as int;
    let column = loc.column as int;
    let k = loc.region as int;
    let al = crate::model::region_anchor_line(k);
    let ac = crate::model::region_anchor_column(k);
    lemma_wf_in_bounds(loc);
    let g2 = grid_set(g, line, column, u);
    crate::grid::lemma_region_span(k, line, column);
    let m0 = (line - al) * 3 + (column - ac);
    assert(0 <= m0 < 9 && m0 / 3 == line - al && m0 % 3 == column - ac) by (nonlinear_arith)
        requires
            al <= line < al + 3,
            ac <= column < ac + 3,
            m0 == (line - al) * 3 + (column - ac),
    ;
    assert(region_seq(g2, k)[m0] == u);
    assert forall|m: int| 0 <= m < 9 && m != m0 implies #[trigger] region_seq(g2, k)[m]
        == region_seq(g, k)[m] by {
        assert(m == (m / 3) * 3 + m % 3) by (nonlinear_arith)
            requires
                0 <= m,
        ;
        assert(m0 == (m0 / 3) * 3 + m0 % 3) by (nonlinear_arith)
            requires
                0 <= m0,
        ;
        assert(!(al + m / 3 == line && ac + m % 3 == column));
    }

    if candidate_ok(g, loc, u) {
        if appears_in_row(g, line, u) {
            let c = choose|c: int| 0 <= c < 9 && #[trigger] g[line][c] == u;
            assert(c != column);
            assert(row_seq(g2, line)[c] == u && row_seq(g2, line)[column] == u);
        }
        if appears_in_col(g, column, u) {
            let r = choose|r: int| 0 <= r < 9 && #[trigger] g[r][column] == u;
            assert(r != line);
            assert(col_seq(g2, column)[r] == u && col_seq(g2, column)[line] == u);
        }
        if appears_in_region(g, k, u) {
            let m = choose|m: int| 0 <= m < 9 && #[trigger] region_seq(g, k)[m] == u;
            assert(m != m0) by {
                if m == m0 {
                    assert(region_seq(g, k)[m0] == g[line][column]);
                }
            }
            assert(region_seq(g2, k)[m] == u && region_seq(g2, k)[m0] == u);
        }
    }
    if !(appears_in_row(g, line, u) || appears_in_col(g, column, u) || appears_in_region(
        g,
        k,
        u,
    )) {
        crate::model::lemma_grid_valid_at(g, line);
        crate::model::lemma_grid_valid_at(g, column);
        crate::model::lemma_grid_valid_at(g, k);
        assert(dup_free(row_seq(g2, line))) by {
            assert forall|a: int, b: int|
                #![trigger row_seq(g2, line)[a], row_seq(g2, line)[b]]
                0 <= a < b < 9 && row_seq(g2, line)[a] == row_seq(g2, line)[b] implies row_seq(
                g2,
                line,
            )[b] == 0 by {
                if a != column && b != column {
                    assert(row_seq(g, line)[a] == row_seq(g2, line)[a]);
                    assert(row_seq(g, line)[b] == row_seq(g2, line)[b]);
                } else if row_seq(g2, line)[b] != 0 {
                    if a == column {
                        assert(g[line][b] == u);
                    } else {
                        assert(g[line][a] == u);
                    }
                }
            }
        }
        assert(dup_free(col_seq(g2, column))) by {
            assert forall|a: int, b: int|
                #![trigger col_seq(g2, column)[a], col_seq(g2, column)[b]]
                0 <= a < b < 9 && col_seq(g2, column)[a] == col_seq(g2, column)[b] implies col_seq(
                g2,
                column,
            )[b] == 0 by {
                if a != line && b != line {
                    assert(col_seq(g, column)[a] == col_seq(g2, column)[a]);
                    assert(col_seq(g, column)[b] == col_seq(g2, column)[b]);
                } else if col_seq(g2, column)[b] != 0 {
                    if a == line {
                        assert(g[b][column] == u);
                    } else {
                        assert(g[a][column] == u);
                    }
                }
            }
        }
        assert(dup_free(region_seq(g2, k))) by {
            assert forall|a: int, b: int|
                #![trigger region_seq(g2, k)[a], region_seq(g2, k)[b]]
                0 <= a < b < 9 && region_seq(g2, k)[a] == region_seq(g2, k)[b] implies region_seq(
                g2,
                k,
            )[b] == 0 by {
                if a != m0 && b != m0 {
                    assert(region_seq(g, k)[a] == region_seq(g2, k)[a]);
                    assert(region_seq(g, k)[b] == region_seq(g2, k)[b]);
                } else if region_seq(g2, k)[b] != 0 {
                    if a == m0 {
                        assert(region_seq(g, k)[b] == u);
                    } else {
                        assert(region_seq(g, k)[a] == u);
                    }
                }
            }
        }
    }
}

/// Whether `u` stands in the line, the column or the region of `loc`.
fn value_in_units(grid_copy: &GridValues, loc: &BoxLocation, u: u8) -> (r: bool)
    requires
        wf_grid(grid_copy.deep_view()),
        loc.wf(),
    ensures
        r <==> (appears_in_row(grid_copy.deep_view(), loc.line as int, u) || appears_in_col(
            grid_copy.deep_view(),
            loc.column as int,
            u,
        ) || appears_in_region(grid_copy.deep_view(), loc.region as int, u)),
{
    let ghost g = grid_copy.deep_view();
    let line = loc.line;
    let column = loc.column;

    let mut c: usize = 0;
    while c < 9
        invariant
            c <= 9,
            line == loc.line,
            line < 9,
            g == grid_copy.deep_view(),
            wf_grid(g),
            forall|cc: int| 0 <= cc < c ==> #[trigger] g[line as int][cc] != u,
        decreases 9 - c,
    {
        proof {
            assert(grid_copy@[line as int]@ =~= g[line as int]);
        }
        if grid_copy[line][c] == u {
            proof {
                assert(g[line as int][c as int] == u);
            }
            return true;
        }
        c += 1;
    }

    let mut r: usize = 0;
    while r < 9
        invariant
            r <= 9,
            column == loc.column,
            column < 9,
            g == grid_copy.deep_view(),
            wf_grid(g),
            forall|rr: int| 0 <= rr < r ==> #[trigger] g[rr][column as int] != u,
        decreases 9 - r,
    {
        proof {
            assert(grid_copy@[r as int]@ =~= g[r as int]);
        }
        if grid_copy[r][column] == u {
            proof {
                assert(g[r as int][column as int] == u);
            }
            return true;
        }
        r += 1;
    }

    proof {
        lemma_wf_in_bounds(*loc);
    }
    let (start_row, start_column) = crate::grid::region_to_location(&loc.region);
    let mut m: usize = 0;
    while m < 9
        invariant
            m <= 9,
            loc.region < 9,
            g == grid_copy.deep_view(),
            wf_grid(g),
            start_row == crate::model::region_anchor_line(loc.region as int),
            start_column == crate::model::region_anchor_column(loc.region as int),
            start_row <= 6 && start_column <= 6,
            forall|mm: int| 0 <= mm < m ==> #[trigger] region_seq(g, loc.region as int)[mm] != u,
        decreases 9 - m,
    {
        proof {
            assert(grid_copy@[(start_row + m / 3) as int]@ =~= g[(start_row + m / 3) as int]);
            assert(region_seq(g, loc.region as int)[m as int] == g[start_row as int + m as int
                / 3][start_column as int + m as int % 3]);
        }
        if grid_copy[start_row + m / 3][start_column + m % 3] == u {
            proof {
                assert(region_seq(g, loc.region as int)[m as int] == u);
            }
            return true;
        }
        m += 1;
    }

    false
}

/// Whether every frontier cell from position `from` on still admits at least
/// one value against the current grid.  A branch in which some open cell
/// admits no value cannot contain a completion: every value that passes the
/// cell's scans deeper in the branch would pass them here, where fewer cells
/// are filled.  Skipping such a branch therefore changes neither which
/// completion the search finds first nor whether it finds one.
/// Whether an unknown cell of a valid grid still admits some digit, checked
/// by scanning its line, column and region for each digit in turn.
fn cell_admits_value(grid_copy: &GridValues, loc: &BoxLocation) -> (r: bool)
    requires
        wf_grid(grid_copy.deep_view()),
        grid_valid(grid_copy.deep_view()),
        loc.wf(),
        grid_copy.deep_view()[loc.line as int][loc.column as int] == 0,
    ensures
        r <==> box_candidates(grid_copy.deep_view(), *loc).len() > 0,
{
    let ghost g = grid_copy.deep_view();
    proof {
        lemma_wf_in_bounds(*loc);
    }
    let mut u: u8 = 1;
    while u <= 9
        invariant
            1 <= u <= 10,
            g == grid_copy.deep_view(),
            wf_grid(g),
            grid_valid(g),
            loc.wf(),
            g[loc.line as int][loc.column as int] == 0,
            forall|w: u8| 1 <= w < u ==> !candidate_ok(g, *loc, w),
        decreases 10 - u,
    {
        let absent = !value_in_units(grid_copy, loc, u);
        proof {
            lemma_admits_iff_absent(g, *loc, u);
            lemma_candidates_from_props(g, *loc, 1);
        }
        if absent {
            proof {
                assert(candidate_ok(g, *loc, u));
                assert(box_candidates(g, *loc).contains(u));
                let kk = choose|kk: int|
                    0 <= kk < box_candidates(g, *loc).len() && box_candidates(g, *loc)[kk] == u;
            }
            return true;
        }
        u += 1;
    }
    proof {
        lemma_candidates_from_props(g, *loc, 1);
        if box_candidates(g, *loc).len() > 0 {
            let w = box_candidates(g, *loc)[0];
            assert(box_candidates(g, *loc).contains(w));
            assert(1 <= w <= 9 && candidate_ok(g, *loc, w));
        }
    }
    false
}

fn remaining_cells_feasible(
    grid_copy: &GridValues,
    frontier: &Vec<InvolvedSolutions>,
    from: usize,
) -> (r: bool)
    requires
        wf_grid(grid_copy.deep_view()),
        grid_valid(grid_copy.deep_view()),
        frontier_ok(frontier@),
        frontier_cells_empty(grid_copy.deep_view(), frontier@, from as int),
    ensures
        r <==> (forall|k: int|
            from <= k < frontier@.len() ==> box_candidates(
                grid_copy.deep_view(),
                (#[trigger] frontier@[k]).current_box.location,
            ).len() > 0),
{
    let mut k: usize = from;
    if k > frontier.len() {
        return true;
    }
    while k < frontier.len()
        invariant
            from <= k <= frontier@.len(),
            wf_grid(grid_copy.deep_view()),
            grid_valid(grid_copy.deep_view()),
            frontier_ok(frontier@),
            frontier_cells_empty(grid_copy.deep_view(), frontier@, from as int),
            forall|kk: int|
                from <= kk < k ==> box_candidates(
                    grid_copy.deep_view(),
                    (#[trigger] frontier@[kk]).current_box.location,
                ).len() > 0,
        decreases frontier@.len() - k,
    {
        let loc = frontier[k].current_box.location;
        proof {
            assert(loc.wf());
            assert(grid_copy.deep_view()[loc.line as int][loc.column as int] == 0);
        }
        if !cell_admits_value(grid_copy, &loc) {
            return false;
        }
        k += 1;
    }
    true
}

/// Tries the candidates of frontier position `j` in ascending order: place,
/// prune the forward lists, re-scan the three dimensions of the cell, and
/// recurse on success; roll back and try the next candidate otherwise.  The
/// grid is left untouched unless the whole remaining frontier was solved.
fn search(
    grid_copy: &mut GridValues,
    frontier: &Vec<InvolvedSolutions>,
    j: usize,
    gorig: Ghost<Seq<Seq<u8>>>,
) -> (r: SearchOutcome)
    requires
        wf_grid(old(grid_copy).deep_view()),
        grid_valid(old(grid_copy).deep_view()),
        frontier_ok(frontier@),
        frontier_distinct(frontier@),
        frontier_cells_empty(old(grid_copy).deep_view(), frontier@, j as int),
        j <= frontier@.len(),
        wf_grid(gorig@),
        grid_refines(gorig@, old(grid_copy).deep_view()),
        forall|k: int|
            0 <= k < frontier@.len() ==> (#[trigger] frontier@[k]).current_box.solutions@
                == box_candidates(gorig@, frontier@[k].current_box.location),
        forall|a: int, b: int|
            0 <= a < b < frontier@.len() ==> (#[trigger] frontier@[a]).current_box.solutions@.len()
                <= (#[trigger] frontier@[b]).current_box.solutions@.len(),
        forall|k: int|
            0 <= k < frontier@.len() ==> (#[trigger] frontier@[k]).current_box.solutions@.len()
                >= 1,
    ensures
        r is Solved ==> wf_grid(final(grid_copy).deep_view()) && grid_valid(
            final(grid_copy).deep_view(),
        ),
        r is Solved ==> (forall|rr: int, cc: int|
            0 <= rr < 9 && 0 <= cc < 9 && untouched(frontier@, j as int, rr, cc)
                ==> final(grid_copy).deep_view()[rr][cc] == old(grid_copy).deep_view()[rr][cc]),
        r is Solved ==> (forall|k: int|
            j <= k < frontier@.len() ==> 1 <= final(grid_copy).deep_view()[(#[trigger] frontier@[k]).current_box.location.line as int][frontier@[k].current_box.location.column as int]
                <= 9),
        r is Solved ==> (forall|s: Seq<Seq<u8>>|
            #[trigger] completes_frontier(old(grid_copy).deep_view(), frontier@, j as int, s)
                ==> cells_lex_leq(
                frontier_cells(frontier@),
                j as int,
                final(grid_copy).deep_view(),
                s,
            )),
        r is DeadEnd ==> final(grid_copy).deep_view() == old(grid_copy).deep_view(),
        !(r is Solved) ==> !(exists|s: Seq<Seq<u8>>|
            completes_frontier(old(grid_copy).deep_view(), frontier@, j as int, s)),
        r is Aborted ==> (exists|k: int|
            j <= k < frontier@.len() && (#[trigger] frontier@[k]).current_box.solutions@.len()
                == 1),
        j == frontier@.len() ==> r is Solved,
    decreases frontier@.len() - j,
{
    let ghost g0 = grid_copy.deep_view();
    let ghost fr = frontier@;

    if j == frontier.len() {
        proof {
            assert(frontier_cells(fr).len() == fr.len());
            assert forall|s: Seq<Seq<u8>>|
                #[trigger] completes_frontier(g0, fr, j as int, s) implies cells_lex_leq(
                frontier_cells(fr),
                j as int,
                grid_copy.deep_view(),
                s,
            ) by {}
        }
        return SearchOutcome::Solved;
    }

    let n = frontier.len();
    let cautious = has_singleton_choice(frontier);
    let entry = &frontier[j];
    let loc = entry.current_box.location;
    let ghost line = loc.line as int;
    let ghost column = loc.column as int;

    let mut involved = clone_involved(&entry.involved_forward);

    let sols_len = entry.current_box.solutions.len();
    let mut k: usize = 0;
    while k < sols_len
        invariant
            k <= sols_len,
            j < n,
            n == fr.len(),
            fr == frontier@,
            g0 == old(grid_copy).deep_view(),
            sols_len == fr[j as int].current_box.solutions@.len(),
            sols_len >= 1,
            *entry == fr[j as int],
            loc == fr[j as int].current_box.location,
            line == loc.line as int,
            column == loc.column as int,
            wf_grid(g0),
            grid_valid(g0),
            frontier_ok(fr),
            frontier_distinct(fr),
            frontier_cells_empty(g0, fr, j as int),
            wf_grid(gorig@),
            grid_refines(gorig@, g0),
            forall|kk: int|
                0 <= kk < fr.len() ==> (#[trigger] fr[kk]).current_box.solutions@
                    == box_candidates(gorig@, fr[kk].current_box.location),
            forall|a: int, b: int|
                0 <= a < b < fr.len() ==> (#[trigger] fr[a]).current_box.solutions@.len()
                    <= (#[trigger] fr[b]).current_box.solutions@.len(),
            forall|kk: int|
                0 <= kk < fr.len() ==> (#[trigger] fr[kk]).current_box.solutions@.len() >= 1,
            forall|s: Seq<Seq<u8>>, kk: int|
                #![trigger completes_frontier(g0, fr, j as int, s), fr[j as int].current_box.solutions@[kk]]
                completes_frontier(g0, fr, j as int, s) && 0 <= kk < k ==> s[line][column]
                    != fr[j as int].current_box.solutions@[kk],
            grid_copy.deep_view() == g0,
            grid_copy@.len() == 9,
        decreases sols_len - k,
    {
        let v = entry.current_box.solutions[k];
        proof {
            assert(1 <= v <= 9);
            assert(loc.wf());
            assert(g0[line][column] == 0);
            assert(grid_copy@[line]@ =~= g0[line]);
        }

        let ghost inv0 = involved@;
        proof {
            assert(involved.len() as int == inv0.len());
        }
        let affected = appy_sol(grid_copy, &mut involved, &loc, &v);
        let ghost g1 = grid_copy.deep_view();
        proof {
            assert(g1 == grid_set(g0, line, column, v));
            lemma_grid_set_wf(g0, line, column, v);
            lemma_affected_from_props(inv0, v, 0);
            assert(involved@.len() == inv0.len());
        }

        let placed_ok = validate_new_box(grid_copy, &loc).is_ok();
        proof {
            if placed_ok {
                assert(region_of(line, column) == loc.region as int);
                lemma_local_validity(g0, line, column, v);
                assert(grid_valid(g1));
            }
            assert(frontier_cells_empty(g1, fr, j as int + 1)) by {
                assert forall|kk: int|
                    j as int + 1 <= kk < fr.len() implies g1[(#[trigger] fr[kk]).current_box.location.line as int][fr[kk].current_box.location.column as int]
                    == 0 by {
                    let lk = fr[kk].current_box.location.line as int;
                    let ck = fr[kk].current_box.location.column as int;
                    assert(!(lk == line && ck == column));
                    assert(g0[lk][ck] == 0);
                }
            }
        }
        let explore = placed_ok && (cautious || remaining_cells_feasible(
            grid_copy,
            frontier,
            j + 1,
        ));

        if explore {
            proof {
                assert(grid_refines(gorig@, g1)) by {
                    assert forall|rr: int, cc: int|
                        #![trigger gorig@[rr][cc]]
                        0 <= rr < gorig@.len() && 0 <= cc < gorig@[rr].len() implies gorig@[rr][cc]
                        == g1[rr][cc] || gorig@[rr][cc] == 0 by {
                        if rr == line && cc == column {
                            assert(gorig@[rr][cc] == g0[rr][cc] || gorig@[rr][cc] == 0);
                        } else {
                            assert(gorig@[rr][cc] == g0[rr][cc] || gorig@[rr][cc] == 0);
                            assert(g1[rr][cc] == g0[rr][cc]);
                        }
                    }
                }
            }
            let deeper = search(grid_copy, frontier, j + 1, Ghost(gorig@));
            match deeper {
                SearchOutcome::Solved => {
                    proof {
                        let g2 = grid_copy.deep_view();
                        assert forall|rr: int, cc: int|
                            0 <= rr < 9 && 0 <= cc < 9 && untouched(fr, j as int, rr, cc)
                                implies g2[rr][cc] == g0[rr][cc] by {
                            assert(untouched(fr, j as int + 1, rr, cc));
                            assert(!(rr == line && cc == column));
                            assert(g2[rr][cc] == g1[rr][cc]);
                        }
                        assert forall|kk: int|
                            j <= kk < fr.len() implies 1 <= grid_copy.deep_view()[(#[trigger] fr[kk]).current_box.location.line as int][fr[kk].current_box.location.column as int]
                            <= 9 by {
                            if kk == j as int {
                                assert(untouched(fr, j as int + 1, line, column));
                                assert(grid_copy.deep_view()[line][column] == g1[line][column]);
                                assert(g1[line][column] == v);
                            }
                        }
                        assert(g2[line][column] == v) by {
                            assert(untouched(fr, j as int + 1, line, column));
                            assert(g2[line][column] == g1[line][column]);
                        }
                        assert forall|s: Seq<Seq<u8>>|
                            #[trigger] completes_frontier(g0, fr, j as int, s) implies cells_lex_leq(
                            frontier_cells(fr),
                            j as int,
                            g2,
                            s,
                        ) by {
                            lemma_wf_in_bounds(loc);
                            lemma_completes_refines(g0, fr, j as int, s);
                            lemma_refines_trans(gorig@, g0, s);
                            lemma_completion_in_candidates(gorig@, s, loc);
                            let kk = choose|kk: int|
                                0 <= kk < fr[j as int].current_box.solutions@.len()
                                    && #[trigger] fr[j as int].current_box.solutions@[kk]
                                    == s[line][column];
                            assert(kk >= k) by {
                                if kk < k {
                                    assert(s[line][column]
                                        != fr[j as int].current_box.solutions@[kk]);
                                }
                            }
                            lemma_candidates_from_props(gorig@, loc, 1);
                            assert(frontier_cells(fr)[j as int] == loc);
                            if kk == k as int {
                                assert(s[line][column] == v);
                                lemma_step_completion(g0, fr, j as int, v, s);
                                assert(completes_frontier(g1, fr, j as int + 1, s));
                                assert(cells_lex_leq(frontier_cells(fr), j as int + 1, g2, s));
                            } else {
                                assert(fr[j as int].current_box.solutions@[k as int]
                                    < fr[j as int].current_box.solutions@[kk]);
                                assert(g2[line][column] < s[line][column]);
                            }
                        }
                    }
                    return SearchOutcome::Solved;
                },
                SearchOutcome::Aborted => {
                    proof {
                        let kp = choose|kp: int|
                            j as int + 1 <= kp < fr.len() && (
                            #[trigger] fr[kp]).current_box.solutions@.len() == 1;
                        assert(j as int <= kp < fr.len());
                        assert forall|s: Seq<Seq<u8>>|
                            completes_frontier(g0, fr, j as int, s) implies false by {
                            lemma_wf_in_bounds(loc);
                            lemma_completes_refines(g0, fr, j as int, s);
                            lemma_refines_trans(gorig@, g0, s);
                            lemma_completion_in_candidates(gorig@, s, loc);
                            let kk = choose|kk: int|
                                0 <= kk < fr[j as int].current_box.solutions@.len()
                                    && #[trigger] fr[j as int].current_box.solutions@[kk]
                                    == s[line][column];
                            assert(fr[j as int].current_box.solutions@.len()
                                <= fr[kp].current_box.solutions@.len());
                            assert(sols_len == 1 && kk == 0 && k == 0);
                            assert(s[line][column] == v);
                            lemma_step_completion(g0, fr, j as int, v, s);
                            assert(completes_frontier(g1, fr, j as int + 1, s));
                        }
                    }
                    return SearchOutcome::Aborted;
                },
                SearchOutcome::DeadEnd => {
                    rollback_sol(grid_copy, &mut involved, &loc, affected, &v);
                    proof {
                        lemma_grid_set_twice(g0, line, column, v, 0);
                        lemma_grid_set_same(g0, line, column);
                        assert(grid_copy.deep_view() == g0);
                        assert forall|s: Seq<Seq<u8>>, kk: int|
                            #![trigger completes_frontier(g0, fr, j as int, s), fr[j as int].current_box.solutions@[kk]]
                            completes_frontier(g0, fr, j as int, s) && 0 <= kk < k
                                + 1 implies s[line][column]
                            != fr[j as int].current_box.solutions@[kk] by {
                            if kk == k as int && s[line][column] == v {
                                lemma_step_completion(g0, fr, j as int, v, s);
                                assert(completes_frontier(g1, fr, j as int + 1, s));
                            }
                        }
                    }
                },
            }
        } else {
            if placed_ok {
                // A later open cell admits no value: the branch holds no
                // completion, so skipping it loses nothing.
                rollback_sol(grid_copy, &mut involved, &loc, affected, &v);
                proof {
                    lemma_grid_set_twice(g0, line, column, v, 0);
                    lemma_grid_set_same(g0, line, column);
                    assert(grid_copy.deep_view() == g0);
                    assert(!(forall|kp: int|
                        j as int + 1 <= kp < fr.len() ==> box_candidates(
                            g1,
                            (#[trigger] fr[kp]).current_box.location,
                        ).len() > 0));
                    let kp = choose|kp: int|
                        j as int + 1 <= kp < fr.len() && !(box_candidates(
                            g1,
                            (#[trigger] fr[kp]).current_box.location,
                        ).len() > 0);
                    assert forall|s: Seq<Seq<u8>>, kk: int|
                        #![trigger completes_frontier(g0, fr, j as int, s), fr[j as int].current_box.solutions@[kk]]
                        completes_frontier(g0, fr, j as int, s) && 0 <= kk < k
                            + 1 implies s[line][column]
                        != fr[j as int].current_box.solutions@[kk] by {
                        if kk == k as int && s[line][column] == v {
                            lemma_wf_in_bounds(fr[kp].current_box.location);
                            lemma_step_completion(g0, fr, j as int, v, s);
                            lemma_completion_in_candidates(
                                g1,
                                s,
                                fr[kp].current_box.location,
                            );
                        }
                    }
                }
            } else {
                if sols_len == 1 {
                    proof {
                        assert(fr[j as int].current_box.solutions@.len() == 1);
                        assert forall|s: Seq<Seq<u8>>|
                            completes_frontier(g0, fr, j as int, s) implies false by {
                            lemma_wf_in_bounds(loc);
                            lemma_completes_refines(g0, fr, j as int, s);
                            lemma_refines_trans(gorig@, g0, s);
                            lemma_completion_in_candidates(gorig@, s, loc);
                            let kk = choose|kk: int|
                                0 <= kk < fr[j as int].current_box.solutions@.len()
                                    && #[trigger] fr[j as int].current_box.solutions@[kk]
                                    == s[line][column];
                            assert(kk == 0 && k == 0);
                            assert(s[line][column] == v);
                            lemma_valid_grid_accepts_own(s, loc);
                            lemma_candidate_refines(g0, s, loc, v);
                            assert(candidate_ok(g0, loc, v));
                        }
                    }
                    return SearchOutcome::Aborted;
                }
                rollback_sol(grid_copy, &mut involved, &loc, affected, &v);
                proof {
                    lemma_grid_set_twice(g0, line, column, v, 0);
                    lemma_grid_set_same(g0, line, column);
                    assert(grid_copy.deep_view() == g0);
                    assert forall|s: Seq<Seq<u8>>, kk: int|
                        #![trigger completes_frontier(g0, fr, j as int, s), fr[j as int].current_box.solutions@[kk]]
                        completes_frontier(g0, fr, j as int, s) && 0 <= kk < k
                            + 1 implies s[line][column]
                        != fr[j as int].current_box.solutions@[kk] by {
                        if kk == k as int && s[line][column] == v {
                            lemma_wf_in_bounds(loc);
                            lemma_completes_refines(g0, fr, j as int, s);
                            lemma_valid_grid_accepts_own(s, loc);
                            lemma_candidate_refines(g0, s, loc, v);
                            assert(candidate_ok(g0, loc, v));
                        }
                    }
                }
            }
        }

        k += 1;
    }

    proof {
        assert forall|s: Seq<Seq<u8>>| completes_frontier(g0, fr, j as int, s) implies false by {
            lemma_wf_in_bounds(loc);
            lemma_completes_refines(g0, fr, j as int, s);
            lemma_refines_trans(gorig@, g0, s);
            lemma_completion_in_candidates(gorig@, s, loc);
            let kk = choose|kk: int|
                0 <= kk < fr[j as int].current_box.solutions@.len()
                    && #[trigger] fr[j as int].current_box.solutions@[kk] == s[line][column];
            assert(s[line][column] != fr[j as int].current_box.solutions@[kk]);
        }
    }
    SearchOutcome::DeadEnd
}

/// `s` is a solution of the puzzle `g` with the given missing cells: a
/// valid complete board that agrees with `g` on every cell not listed.
pub open spec fn is_completion(g: Seq<Seq<u8>>, locs: Seq<BoxLocation>, s: Seq<Seq<u8>>) -> bool {
    &&& wf_grid(s)
    &&& grid_valid(s)
    &&& grid_complete(s)
    &&& forall|rr: int, cc: int|
        0 <= rr < 9 && 0 <= cc < 9 && cell_not_missing(locs, rr, cc) ==> #[trigger] s[rr][cc]
            == g[rr][cc]
}

/// Every missing cell is carried by some frontier entry, so a solution of
/// the puzzle is in particular a completion of the whole frontier.
proof fn lemma_search_failure_refutes(
    g: Seq<Seq<u8>>,
    locs: Seq<BoxLocation>,
    sorted: Seq<SortedSolution>,
    fr: Seq<InvolvedSolutions>,
)
    requires
        fr.len() == sorted.len(),
        forall|k: int| 0 <= k < fr.len() ==> (#[trigger] fr[k]).current_box@ == sorted[k]@,
        forall|i: int| 0 <= i < locs.len() ==> #[trigger] loc_covered(g, locs, sorted, i),
    ensures
        forall|s: Seq<Seq<u8>>|
            #[trigger] is_completion(g, locs, s) ==> completes_frontier(g, fr, 0, s),
{
    assert forall|s: Seq<Seq<u8>>|
        #[trigger] is_completion(g, locs, s) implies completes_frontier(g, fr, 0, s) by {
        assert forall|rr: int, cc: int|
            0 <= rr < 9 && 0 <= cc < 9 && untouched(fr, 0, rr, cc) implies #[trigger] s[rr][cc]
            == g[rr][cc] by {
            assert(cell_not_missing(locs, rr, cc)) by {
                if !cell_not_missing(locs, rr, cc) {
                    let m = choose|m: int|
                        0 <= m < locs.len() && ((#[trigger] locs[m]).line == rr && locs[m].column
                            == cc);
                    assert(loc_covered(g, locs, sorted, m));
                    let a = choose|a: int|
                        0 <= a < sorted.len() && (#[trigger] sorted[a])@ == entry_of(g, locs[m]);
                    assert(fr[a].current_box@ == sorted[a]@);
                    assert(fr[a].current_box.location == locs[m]);
                    assert(!(fr[a].current_box.location.line == rr
                        && fr[a].current_box.location.column == cc));
                }
            }
        }
    }
}

/// `big` is `small` with some unknown cells filled in: wherever `small`
/// holds a known value, `big` holds the same one.
pub open spec fn grid_refines(small: Seq<Seq<u8>>, big: Seq<Seq<u8>>) -> bool {
    &&& small.len() == big.len()
    &&& forall|r: int| 0 <= r < small.len() ==> (#[trigger] small[r]).len() == big[r].len()
    &&& forall|r: int, c: int|
        #![trigger small[r][c]]
        0 <= r < small.len() && 0 <= c < small[r].len() ==> small[r][c] == big[r][c] || small[r][c]
            == 0
}

/// A value the three scans accept against a filled-in grid is accepted
/// against any grid it refines: clearing cells can only remove conflicts.
pub proof fn lemma_candidate_refines(
    small: Seq<Seq<u8>>,
    big: Seq<Seq<u8>>,
    loc: BoxLocation,
    v: u8,
)
    requires
        wf_grid(small),
        wf_grid(big),
        grid_refines(small, big),
        loc.in_bounds(),
        candidate_ok(big, loc, v),
    ensures
        candidate_ok(small, loc, v),
{
    let line = loc.line as int;
    let column = loc.column as int;
    let region = loc.region as int;
    let a = grid_set(small, line, column, v);
    let b = grid_set(big, line, column, v);
    assert forall|r: int, c: int|
        #![trigger a[r][c]]
        0 <= r < 9 && 0 <= c < 9 implies a[r][c] == b[r][c] || a[r][c] == 0 by {
        if !(r == line && c == column) {
            assert(small[r][c] == big[r][c] || small[r][c] == 0);
        }
    }
    assert forall|k: int| 0 <= k < 9 implies row_seq(a, line)[k] == row_seq(b, line)[k]
        || #[trigger] row_seq(a, line)[k] == 0 by {}
    crate::grid::lemma_dup_free_weaken(row_seq(b, line), row_seq(a, line));
    assert forall|k: int| 0 <= k < 9 implies col_seq(a, column)[k] == col_seq(b, column)[k]
        || #[trigger] col_seq(a, column)[k] == 0 by {}
    crate::grid::lemma_dup_free_weaken(col_seq(b, column), col_seq(a, column));
    assert forall|k: int| 0 <= k < 9 implies region_seq(a, region)[k] == region_seq(b, region)[k]
        || #[trigger] region_seq(a, region)[k] == 0 by {}
    crate::grid::lemma_dup_free_weaken(region_seq(b, region), region_seq(a, region));
}

/// A valid grid accepts each of its own known values in place.
pub proof fn lemma_valid_grid_accepts_own(s: Seq<Seq<u8>>, loc: BoxLocation)
    requires
        wf_grid(s),
        grid_valid(s),
        loc.in_bounds(),
    ensures
        candidate_ok(s, loc, s[loc.line as int][loc.column as int]),
{
    let line = loc.line as int;
    let column = loc.column as int;
    lemma_grid_set_same(s, line, column);
    crate::model::lemma_grid_valid_at(s, line);
    crate::model::lemma_grid_valid_at(s, column);
    crate::model::lemma_grid_valid_at(s, loc.region as int);
}

/// On a puzzle that some valid complete grid extends, every cell keeps at
/// least its value from that grid as a candidate.
pub proof fn lemma_completion_in_candidates(g: Seq<Seq<u8>>, s: Seq<Seq<u8>>, loc: BoxLocation)
    requires
        wf_grid(g),
        wf_grid(s),
        grid_valid(s),
        grid_complete(s),
        grid_refines(g, s),
        loc.in_bounds(),
    ensures
        box_candidates(g, loc).contains(s[loc.line as int][loc.column as int]),
        box_candidates(g, loc).len() > 0,
{
    let v = s[loc.line as int][loc.column as int];
    assert(1 <= v <= 9);
    lemma_valid_grid_accepts_own(s, loc);
    lemma_candidate_refines(g, s, loc, v);
    lemma_candidates_from_props(g, loc, 1);
    assert(box_candidates(g, loc).contains(v));
    let k = choose|k: int| 0 <= k < box_candidates(g, loc).len() && box_candidates(g, loc)[k] == v;
}

/// Cell (r, c) is listed in none of the given locations.
pub open spec fn cell_not_missing(locs: Seq<BoxLocation>, r: int, c: int) -> bool {
    forall|k: int|
        0 <= k < locs.len() ==> !((#[trigger] locs[k]).line == r && locs[k].column == c)
}

/// The missing-location list is exactly what `solve` asks of its callers:
/// well-formed locations of unknown cells, no cell twice, and every unknown
/// cell listed.
pub proof fn lemma_missing_locs_props(g: Seq<Seq<u8>>)
    requires
        wf_grid(g),
    ensures
        forall|k: int|
            0 <= k < missing_locs(g).len() ==> (#[trigger] missing_locs(g)[k]).wf() && g[
                missing_locs(g)[k].line as int
            ][missing_locs(g)[k].column as int] == 0,
        forall|a: int, b: int|
            0 <= a < b < missing_locs(g).len() ==> ((#[trigger] missing_locs(g)[a]).line
                != (#[trigger] missing_locs(g)[b]).line || missing_locs(g)[a].column
                != missing_locs(g)[b].column),
        forall|rr: int, cc: int|
            0 <= rr < 9 && 0 <= cc < 9 && #[trigger] g[rr][cc] == 0 ==> !cell_not_missing(
                missing_locs(g),
                rr,
                cc,
            ),
        grid_complete(g) ==> missing_locs(g).len() == 0,
{
    lemma_missing_from_props(g, 0);
    let ms = missing_locs(g);
    assert forall|a: int, b: int|
        0 <= a < b < ms.len() implies ((#[trigger] ms[a]).line != (#[trigger] ms[b]).line
        || ms[a].column != ms[b].column) by {
        assert(flat_index(ms[a]) < flat_index(ms[b]));
    }
    assert forall|rr: int, cc: int|
        0 <= rr < 9 && 0 <= cc < 9 && #[trigger] g[rr][cc] == 0 implies !cell_not_missing(
        ms,
        rr,
        cc,
    ) by {
        let loc = BoxLocation {
            line: rr as usize,
            column: cc as usize,
            region: region_of(rr, cc) as u8,
        };
        assert(rr * 9 + cc >= 0);
        assert(ms.contains(loc));
        let k = choose|k: int| 0 <= k < ms.len() && ms[k] == loc;
        assert(ms[k].line == rr && ms[k].column == cc);
    }
    if grid_complete(g) && ms.len() > 0 {
        assert(g[ms[0].line as int][ms[0].column as int] == 0);
        assert(ms[0].wf());
    }
}

/// A grid whose unknown cells are exactly the cells of a duplicate-free
/// location list has exactly as many missing locations as the list holds.
pub proof fn lemma_missing_count(g: Seq<Seq<u8>>, locs: Seq<BoxLocation>)
    requires
        wf_grid(g),
        forall|m: int| 0 <= m < locs.len() ==> (#[trigger] locs[m]).line < 9 && locs[m].column < 9,
        forall|m1: int, m2: int|
            0 <= m1 < m2 < locs.len() ==> ((#[trigger] locs[m1]).line != (#[trigger] locs[m2]).line
                || locs[m1].column != locs[m2].column),
        forall|rr: int, cc: int|
            0 <= rr < 9 && 0 <= cc < 9 ==> (#[trigger] g[rr][cc] == 0 <==> !cell_not_missing(
                locs,
                rr,
                cc,
            )),
    ensures
        missing_locs(g).len() == locs.len(),
{
    lemma_missing_from_props(g, 0);
    let ms = missing_locs(g);
    let fms = Seq::new(ms.len(), |k: int| flat_index(ms[k]));
    let fls = Seq::new(locs.len(), |m: int| flat_index(locs[m]));

    assert(fms.no_duplicates()) by {
        assert forall|i: int, j: int|
            0 <= i < fms.len() && 0 <= j < fms.len() && i != j implies fms[i] != fms[j] by {
            if i < j {
                assert(flat_index(ms[i]) < flat_index(ms[j]));
            } else {
                assert(flat_index(ms[j]) < flat_index(ms[i]));
            }
        }
    }
    assert(fls.no_duplicates()) by {
        assert forall|i: int, j: int|
            0 <= i < fls.len() && 0 <= j < fls.len() && i != j implies fls[i] != fls[j] by {
            let a = if i < j {
                i
            } else {
                j
            };
            let b = if i < j {
                j
            } else {
                i
            };
            assert(locs[a].line != locs[b].line || locs[a].column != locs[b].column);
            assert(locs[a].line < 9 && locs[a].column < 9 && locs[b].line < 9 && locs[b].column
                < 9);
        }
    }

    assert(fms.to_set() =~= fls.to_set()) by {
        assert forall|x: int| fms.to_set().contains(x) implies fls.to_set().contains(x) by {
            let k = choose|k: int| 0 <= k < fms.len() && fms[k] == x;
            let loc = ms[k];
            assert(loc.wf() && g[loc.line as int][loc.column as int] == 0);
            assert(!cell_not_missing(locs, loc.line as int, loc.column as int));
            let m = choose|m: int|
                0 <= m < locs.len() && ((#[trigger] locs[m]).line == loc.line && locs[m].column
                    == loc.column);
            assert(fls[m] == x);
            assert(fls.contains(x));
        }
        assert forall|x: int| fls.to_set().contains(x) implies fms.to_set().contains(x) by {
            let m = choose|m: int| 0 <= m < fls.len() && fls[m] == x;
            let rr = locs[m].line as int;
            let cc = locs[m].column as int;
            assert(!cell_not_missing(locs, rr, cc)) by {
                assert(locs[m].line == rr && locs[m].column == cc);
            }
            assert(g[rr][cc] == 0);
            let canonical = BoxLocation {
                line: rr as usize,
                column: cc as usize,
                region: crate::model::region_of(rr, cc) as u8,
            };
            assert(rr * 9 + cc >= 0);
            assert(ms.contains(canonical));
            let k = choose|k: int| 0 <= k < ms.len() && ms[k] == canonical;
            assert(fms[k] == x);
            assert(fms.contains(x));
        }
    }

    fms.unique_seq_to_set();
    fls.unique_seq_to_set();
}

/// A grid that agrees with `g` off the missing cells and holds a digit at
/// every missing cell is complete.
pub proof fn lemma_filled_missing_complete(g: Seq<Seq<u8>>, dv: Seq<Seq<u8>>)
    requires
        wf_grid(g),
        wf_grid(dv),
        forall|rr: int, cc: int|
            0 <= rr < 9 && 0 <= cc < 9 && cell_not_missing(missing_locs(g), rr, cc)
                ==> dv[rr][cc] == g[rr][cc],
        forall|k: int|
            0 <= k < missing_locs(g).len() ==> 1 <= dv[(#[trigger] missing_locs(g)[k]).line as int][missing_locs(
                g,
            )[k].column as int] <= 9,
    ensures
        grid_complete(dv),
{
    lemma_missing_locs_props(g);
    let ms = missing_locs(g);
    assert forall|rr: int, cc: int| 0 <= rr < 9 && 0 <= cc < 9 implies #[trigger] dv[rr][cc]
        != 0 by {
        if cell_not_missing(ms, rr, cc) {
            assert(dv[rr][cc] == g[rr][cc]);
            if g[rr][cc] == 0 {
                assert(!cell_not_missing(ms, rr, cc));
            }
        } else {
            let k = choose|k: int|
                0 <= k < ms.len() && ((#[trigger] ms[k]).line == rr && ms[k].column == cc);
            assert(1 <= dv[rr][cc] <= 9);
        }
    }
}

/// Solves the grid by complexity-ordered backtracking over the missing
/// cells.  On success the returned grid is valid, agrees with the input on
/// every cell not listed as missing, holds a digit 1..=9 at every listed
/// cell, and is the first completion under the fixed search order (candidate
/// count ascending, ties in scan order, values ascending): for one input the
/// result is always the same grid.  With nothing missing the input comes
/// back unchanged.  The search fails exactly when no completion exists: a
/// missing cell with no candidate, an exhausted frontier, and the dead-end
/// shortcut (a position whose single candidate fails its re-scan) all refute
/// every completion.
pub fn solve(grid_values: &GridValues, missing_boxes: &Vec<BoxLocation>) -> (r: Result<
    GridValues,
    NoSudokuSolutionFound,
>)
    requires
        wf_grid(grid_values.deep_view()),
        grid_valid(grid_values.deep_view()),
        forall|k: int| 0 <= k < missing_boxes@.len() ==> (#[trigger] missing_boxes@[k]).wf(),
        forall|k: int|
            0 <= k < missing_boxes@.len() ==> grid_values.deep_view()[(
            #[trigger] missing_boxes@[k]).line as int][missing_boxes@[k].column as int] == 0,
        forall|a: int, b: int|
            0 <= a < b < missing_boxes@.len() ==> ((#[trigger] missing_boxes@[a]).line
                != (#[trigger] missing_boxes@[b]).line || missing_boxes@[a].column
                != missing_boxes@[b].column),
    ensures
        missing_boxes@.len() == 0 ==> r is Ok && r->Ok_0.deep_view() == grid_values.deep_view(),
        r is Ok ==> wf_grid(r->Ok_0.deep_view()) && grid_valid(r->Ok_0.deep_view()),
        r is Ok ==> (forall|rr: int, cc: int|
            0 <= rr < 9 && 0 <= cc < 9 && cell_not_missing(missing_boxes@, rr, cc)
                ==> r->Ok_0.deep_view()[rr][cc] == grid_values.deep_view()[rr][cc]),
        r is Ok ==> (forall|k: int|
            0 <= k < missing_boxes@.len() ==> 1 <= r->Ok_0.deep_view()[(
            #[trigger] missing_boxes@[k]).line as int][missing_boxes@[k].column as int] <= 9),
        r is Err ==> !(exists|s: Seq<Seq<u8>>|
            is_completion(grid_values.deep_view(), missing_boxes@, s)),
        (exists|s: Seq<Seq<u8>>| is_completion(grid_values.deep_view(), missing_boxes@, s))
            ==> r is Ok,
        r is Ok ==> (forall|s: Seq<Seq<u8>>|
            #[trigger] is_completion(grid_values.deep_view(), missing_boxes@, s)
                ==> cells_lex_leq(
                complexity_sorted_locs(grid_values.deep_view(), missing_boxes@),
                0,
                r->Ok_0.deep_view(),
                s,
            )),
{
    let ghost g = grid_values.deep_view();
    let ghost locs = missing_boxes@;

    let mut grid_copy = clone_grid(grid_values);

    let sorted = match get_solutions_complexity_sorted(grid_values, missing_boxes) {
        Ok(sorted) => sorted,
        Err(_) => {
            proof {
                let i = choose|i: int|
                    #![auto]
                    0 <= i < locs.len() && complexity(g, locs[i]) == 0;
                assert forall|s: Seq<Seq<u8>>| is_completion(g, locs, s) implies false by {
                    lemma_wf_in_bounds(locs[i]);
                    assert(grid_refines(g, s)) by {
                        assert forall|rr: int, cc: int|
                            #![trigger g[rr][cc]]
                            0 <= rr < g.len() && 0 <= cc < g[rr].len() implies g[rr][cc]
                            == s[rr][cc] || g[rr][cc] == 0 by {
                            if !cell_not_missing(locs, rr, cc) {
                                let m = choose|m: int|
                                    0 <= m < locs.len() && ((#[trigger] locs[m]).line == rr
                                        && locs[m].column == cc);
                                assert(g[rr][cc] == 0);
                            }
                        }
                    }
                    lemma_completion_in_candidates(g, s, locs[i]);
                }
            }
            return Err(NoSudokuSolutionFound);
        },
    };

    let with_involved = get_involved_solutions(&sorted);
    let ghost fr = with_involved@;

    proof {
        assert forall|i: int, j: int|
            0 <= i < j < locs.len() implies #[trigger] locs[i] != #[trigger] locs[j] by {}

        assert forall|k: int| 0 <= k < fr.len() implies (#[trigger] fr[k]).current_box.location.wf()
            && grid_copy.deep_view()[fr[k].current_box.location.line as int][fr[k].current_box.location.column as int]
            == 0 by {
            assert(fr[k].current_box@ == sorted@[k]@);
            assert(entry_listed(g, locs, sorted@[k]@));
            let i = choose|i: int| 0 <= i < locs.len() && sorted@[k]@ == entry_of(g, #[trigger] locs[i]);
            assert(fr[k].current_box.location == locs[i]);
        }
        assert(frontier_ok(fr)) by {
            assert forall|k: int, m: int|
                #![trigger fr[k].current_box.solutions@[m]]
                0 <= k < fr.len() && 0 <= m < fr[k].current_box.solutions@.len() implies 1
                <= fr[k].current_box.solutions@[m] <= 9 by {
                assert(fr[k].current_box@ == sorted@[k]@);
                assert(entry_listed(g, locs, sorted@[k]@));
                let i = choose|i: int|
                    0 <= i < locs.len() && sorted@[k]@ == entry_of(g, #[trigger] locs[i]);
                assert(fr[k].current_box.solutions@ == box_candidates(g, locs[i]));
                lemma_candidates_from_props(g, locs[i], 1);
            }
        }
        assert(frontier_distinct(fr)) by {
            assert forall|a: int, b: int|
                0 <= a < b < fr.len() implies ((#[trigger] fr[a]).current_box.location.line
                != (#[trigger] fr[b]).current_box.location.line || fr[a].current_box.location.column
                != fr[b].current_box.location.column) by {
                assert(fr[a].current_box@ == sorted@[a]@);
                assert(fr[b].current_box@ == sorted@[b]@);
                assert(sorted@[a].location != sorted@[b].location);
                let la = fr[a].current_box.location;
                let lb = fr[b].current_box.location;
                assert(la.wf() && lb.wf());
                if la.line == lb.line && la.column == lb.column {
                    assert(la.region == lb.region);
                    assert(la == lb);
                }
            }
        }
        assert(frontier_cells_empty(grid_copy.deep_view(), fr, 0));
        assert forall|k: int|
            0 <= k < fr.len() implies (#[trigger] fr[k]).current_box.solutions@ == box_candidates(
            g,
            fr[k].current_box.location,
        ) by {
            assert(fr[k].current_box@ == sorted@[k]@);
            assert(entry_listed(g, locs, sorted@[k]@));
            let i = choose|i: int| 0 <= i < locs.len() && sorted@[k]@ == entry_of(g, #[trigger] locs[i]);
            assert(fr[k].current_box.location == locs[i]);
            assert(fr[k].current_box.solutions@ == box_candidates(g, locs[i]));
        }
        assert forall|a: int, b: int|
            0 <= a < b < fr.len() implies (#[trigger] fr[a]).current_box.solutions@.len()
            <= (#[trigger] fr[b]).current_box.solutions@.len() by {
            assert(fr[a].current_box@ == sorted@[a]@);
            assert(fr[b].current_box@ == sorted@[b]@);
            assert(sorted@[a].solutions@.len() <= sorted@[b].solutions@.len());
        }
        assert forall|k: int|
            0 <= k < fr.len() implies (#[trigger] fr[k]).current_box.solutions@.len() >= 1 by {
            assert(fr[k].current_box@ == sorted@[k]@);
            assert(entry_listed(g, locs, sorted@[k]@));
            let i = choose|i: int| 0 <= i < locs.len() && sorted@[k]@ == entry_of(g, #[trigger] locs[i]);
            assert(complexity(g, locs[i]) > 0);
        }
        assert(grid_refines(g, grid_copy.deep_view())) by {
            assert forall|rr: int, cc: int|
                #![trigger g[rr][cc]]
                0 <= rr < g.len() && 0 <= cc < g[rr].len() implies g[rr][cc]
                == grid_copy.deep_view()[rr][cc] || g[rr][cc] == 0 by {}
        }
    }

    let outcome = search(&mut grid_copy, &with_involved, 0, Ghost(g));

    proof {
        assert(frontier_cells(fr) =~= sorted_cells(sorted@)) by {
            assert forall|kk: int|
                0 <= kk < fr.len() implies frontier_cells(fr)[kk] == sorted_cells(sorted@)[kk] by {
                assert(fr[kk].current_box@ == sorted@[kk]@);
            }
        }
        assert(frontier_cells(fr) == complexity_sorted_locs(g, locs));
    }

    match outcome {
        SearchOutcome::Solved => {
            proof {
                let dv = grid_copy.deep_view();
                lemma_search_failure_refutes(g, locs, sorted@, fr);
                assert forall|s: Seq<Seq<u8>>|
                    #[trigger] is_completion(g, locs, s) implies cells_lex_leq(
                    complexity_sorted_locs(g, locs),
                    0,
                    dv,
                    s,
                ) by {
                    assert(completes_frontier(g, fr, 0, s));
                    assert(cells_lex_leq(frontier_cells(fr), 0, dv, s));
                }
                assert forall|rr: int, cc: int|
                    0 <= rr < 9 && 0 <= cc < 9 && cell_not_missing(locs, rr, cc) implies dv[rr][cc]
                    == g[rr][cc] by {
                    assert(untouched(fr, 0, rr, cc)) by {
                        assert forall|k: int|
                            0 <= k < fr.len() implies !((#[trigger] fr[k]).current_box.location.line
                            == rr && fr[k].current_box.location.column == cc) by {
                            assert(fr[k].current_box@ == sorted@[k]@);
                            assert(entry_listed(g, locs, sorted@[k]@));
                            let i = choose|i: int|
                                0 <= i < locs.len() && sorted@[k]@ == entry_of(
                                    g,
                                    #[trigger] locs[i],
                                );
                            assert(fr[k].current_box.location == locs[i]);
                        }
                    }
                }
                assert forall|k: int|
                    0 <= k < locs.len() implies 1 <= dv[(#[trigger] locs[k]).line as int][locs[k].column as int]
                    <= 9 by {
                    assert(loc_covered(g, locs, sorted@, k));
                    let a = choose|a: int|
                        0 <= a < sorted@.len() && (#[trigger] sorted@[a])@ == entry_of(g, locs[k]);
                    assert(fr[a].current_box@ == sorted@[a]@);
                    assert(fr[a].current_box.location == locs[k]);
                }
                if locs.len() == 0 {
                    assert(wf_grid(dv) && wf_grid(g));
                    assert forall|rr: int, cc: int|
                        0 <= rr < 9 && 0 <= cc < 9 implies dv[rr][cc] == g[rr][cc] by {
                        assert(cell_not_missing(locs, rr, cc));
                    }
                    assert forall|rr: int| 0 <= rr < 9 implies dv[rr] =~= g[rr] by {
                        assert(dv[rr].len() == 9 && g[rr].len() == 9);
                    }
                    assert(dv =~~= g);
                }
            }
            Ok(grid_copy)
        },
        SearchOutcome::DeadEnd => {
            proof {
                lemma_search_failure_refutes(g, locs, sorted@, fr);
                if locs.len() == 0 {
                    assert(sorted@.len() == 0) by {
                        if sorted@.len() > 0 {
                            assert(entry_listed(g, locs, sorted@[0]@));
                            let i = choose|i: int|
                                0 <= i < locs.len() && sorted@[0]@ == entry_of(
                                    g,
                                    #[trigger] locs[i],
                                );
                        }
                    }
                }
            }
            Err(NoSudokuSolutionFound)
        },
        SearchOutcome::Aborted => {
            proof {
                lemma_search_failure_refutes(g, locs, sorted@, fr);
                if locs.len() == 0 {
                    assert(sorted@.len() == 0) by {
                        if sorted@.len() > 0 {
                            assert(entry_listed(g, locs, sorted@[0]@));
                            let i = choose|i: int|
                                0 <= i < locs.len() && sorted@[0]@ == entry_of(
                                    g,
                                    #[trigger] locs[i],
                                );
                        }
                    }
                }
            }
            Err(NoSudokuSolutionFound)
        },
    }
}

} // verus!
